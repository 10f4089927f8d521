//! Text lines: white space, fields and the words that stand for no value.

use vstd::prelude::*;
use vstd::string::StrSliceExecFns;

verus! {

/// The characters with the Unicode property `White_Space`.
pub open spec fn white_space(c: char) -> bool {
    let u = c as u32;
    ||| 0x09 <= u <= 0x0d
    ||| u == 0x20
    ||| u == 0x85
    ||| u == 0xa0
    ||| u == 0x1680
    ||| 0x2000 <= u <= 0x200a
    ||| u == 0x2028
    ||| u == 0x2029
    ||| u == 0x202f
    ||| u == 0x205f
    ||| u == 0x3000
}

/// The characters that part the fields of a line.
pub open spec fn separator(c: char) -> bool {
    c == ',' || c == ' '
}

/// The first index from `a` on that holds no white space.
pub open spec fn trim_start(s: Seq<char>, a: int) -> int
    decreases s.len() - a,
{
    if 0 <= a < s.len() && white_space(s[a]) {
        trim_start(s, a + 1)
    } else {
        a
    }
}

/// The end of `s` up to `b` without the white space before it, down to `a`.
pub open spec fn trim_end(s: Seq<char>, a: int, b: int) -> int
    decreases b - a,
{
    if a < b <= s.len() && white_space(s[b - 1]) {
        trim_end(s, a, b - 1)
    } else {
        b
    }
}

/// `s` without the white space at both ends.
pub open spec fn trimmed(s: Seq<char>) -> Seq<char> {
    let a = trim_start(s, 0);
    s.subrange(a, trim_end(s, a, s.len() as int))
}

/// The first index from `a` on that is not a separator.
pub open spec fn field_start(s: Seq<char>, a: int) -> int
    decreases s.len() - a,
{
    if 0 <= a < s.len() && separator(s[a]) {
        field_start(s, a + 1)
    } else {
        a
    }
}

/// The first index from `a` on that is a separator, or the end.
pub open spec fn field_end(s: Seq<char>, a: int) -> int
    decreases s.len() - a,
{
    if 0 <= a < s.len() && !separator(s[a]) {
        field_end(s, a + 1)
    } else {
        a
    }
}

/// The fields of `s` from `a` on: the longest stretches without a separator.
pub open spec fn fields_from(s: Seq<char>, a: int) -> Seq<Seq<char>>
    decreases s.len() - a,
{
    let b = field_start(s, a);
    let e = field_end(s, b);
    if a <= b < e <= s.len() {
        seq![s.subrange(b, e)] + fields_from(s, e)
    } else {
        Seq::empty()
    }
}

/// The fields of a line, after white space at its ends has been dropped.
pub open spec fn fields(line: Seq<char>) -> Seq<Seq<char>> {
    fields_from(trimmed(line), 0)
}

pub open spec fn lower(c: char) -> char {
    if 'A' <= c && c <= 'Z' {
        (c as u32 + 32) as char
    } else {
        c
    }
}

/// `s` with its ASCII letters in lower case.
pub open spec fn lowered(s: Seq<char>) -> Seq<char> {
    s.map_values(|c: char| lower(c))
}

/// The field says that there is no value.
pub open spec fn says_missing(s: Seq<char>) -> bool {
    lowered(s) == "none"@ || lowered(s) == "null"@
}

/// Tells white space.
pub fn is_white_space(c: char) -> (r: bool)
    ensures
        r == white_space(c),
        r == ({
            let u = c as u32;
            0x09 <= u <= 0x0d || u == 0x20 || u == 0x85 || u == 0xa0 || u == 0x1680 || 0x2000 <= u <= 0x200a || u
                == 0x2028 || u == 0x2029 || u == 0x202f || u == 0x205f || u == 0x3000
        }),
{
    let u: u32 = c as u32;
    (0x09 <= u && u <= 0x0d) || u == 0x20 || u == 0x85 || u == 0xa0 || u == 0x1680 || (0x2000 <= u
        && u <= 0x200a) || u == 0x2028 || u == 0x2029 || u == 0x202f || u == 0x205f || u == 0x3000
}

fn is_separator(c: char) -> (r: bool)
    ensures
        r == separator(c),
{
    c == ',' || c == ' '
}

fn to_lower(c: char) -> (r: char)
    ensures
        r == lower(c),
{
    if 'A' <= c && c <= 'Z' {
        (c as u8 + 32) as char
    } else {
        c
    }
}

/// The characters of a text.
pub fn characters(s: &str) -> (r: Vec<char>)
    ensures
        r@ == s@,
{
    let mut out: Vec<char> = Vec::new();
    for c in it: s.chars()
        invariant
            out@ == it.seq().take(it.index() as int),
            it.seq() == s@,
    {
        out.push(c);
    }
    assert(out@ =~= s@);
    out
}

proof fn starts_in_range(s: Seq<char>, a: int)
    requires
        0 <= a <= s.len(),
    ensures
        a <= field_start(s, a) <= s.len(),
        a <= field_end(s, a) <= s.len(),
    decreases s.len() - a,
{
    if a < s.len() {
        starts_in_range(s, a + 1);
    }
}

/// The fields of a line; `None` for a line of nothing but white space.
pub fn split_fields<'a>(line: &'a str) -> (r: Option<Vec<&'a str>>)
    ensures
        r is None <==> trimmed(line@).len() == 0,
        r matches Some(v) ==> v@.map_values(|f: &str| f@) == fields(line@),
{
    let chars: Vec<char> = characters(line);
    let mut lo: usize = 0;
    while lo < chars.len() && is_white_space(chars[lo])
        invariant
            chars@ == line@,
            lo <= chars@.len(),
            trim_start(chars@, lo as int) == trim_start(chars@, 0),
        decreases chars@.len() - lo,
    {
        lo = lo + 1;
    }
    let mut hi: usize = chars.len();
    while hi > lo && is_white_space(chars[hi - 1])
        invariant
            chars@ == line@,
            lo <= hi <= chars@.len(),
            trim_end(chars@, lo as int, hi as int) == trim_end(chars@, lo as int, chars@.len() as int),
        decreases hi,
    {
        hi = hi - 1;
    }
    let ghost t = trimmed(line@);
    assert(t == line@.subrange(lo as int, hi as int));
    if lo == hi {
        return None;
    }
    let mut out: Vec<&'a str> = Vec::new();
    let ghost mut done: Seq<Seq<char>> = Seq::empty();
    let mut a: usize = lo;
    assert(done + fields_from(t, 0) =~= fields(line@));
    loop
        invariant_except_break
            done + fields_from(t, a - lo) == fields(line@),
        invariant
            chars@ == line@,
            lo <= a <= hi <= chars@.len(),
            t == line@.subrange(lo as int, hi as int),
            out@.map_values(|f: &str| f@) == done,
        ensures
            done == fields(line@),
        decreases hi - a,
    {
        let ghost from = a - lo;
        let mut b: usize = a;
        while b < hi && is_separator(chars[b])
            invariant
                chars@ == line@,
                lo <= a <= b <= hi <= chars@.len(),
                t == line@.subrange(lo as int, hi as int),
                field_start(t, b - lo) == field_start(t, a - lo),
            decreases hi - b,
        {
            b = b + 1;
        }
        if b == hi {
            assert(field_start(t, from) == t.len());
            assert(fields_from(t, from) =~= Seq::<Seq<char>>::empty()) by {
                starts_in_range(t, t.len() as int);
            }
            assert(done + fields_from(t, from) =~= done);
            break;
        }
        let mut e: usize = b + 1;
        while e < hi && !is_separator(chars[e])
            invariant
                chars@ == line@,
                lo <= b < e <= hi <= chars@.len(),
                t == line@.subrange(lo as int, hi as int),
                field_end(t, e - lo) == field_end(t, b - lo),
            decreases hi - e,
        {
            e = e + 1;
        }
        let field: &'a str = line.substring_char(b, e);
        out.push(field);
        proof {
            assert(field@ =~= t.subrange(b - lo, e - lo));
            let longer = done.push(field@);
            assert(out@.map_values(|f: &str| f@) =~= longer);
            assert(done + fields_from(t, from) =~= longer + fields_from(t, e - lo));
            done = longer;
        }
        a = e;
    }
    Some(out)
}

/// Tells a field that says there is no value.
pub fn is_missing(field: &str) -> (r: bool)
    ensures
        r == says_missing(field@),
{
    let chars: Vec<char> = characters(field);
    proof {
        reveal_strlit("none");
        reveal_strlit("null");
    }
    if chars.len() != 4 {
        return false;
    }
    let (c0, c1, c2, c3) = (to_lower(chars[0]), to_lower(chars[1]), to_lower(chars[2]), to_lower(chars[3]));
    assert(lowered(field@) =~= seq![c0, c1, c2, c3]);
    assert("none"@ =~= seq!['n', 'o', 'n', 'e']);
    assert("null"@ =~= seq!['n', 'u', 'l', 'l']);
    let r: bool = c0 == 'n' && ((c1 == 'o' && c2 == 'n' && c3 == 'e') || (c1 == 'u' && c2 == 'l' && c3 == 'l'));
    proof {
        let low = seq![c0, c1, c2, c3];
        assert(low[0] == c0 && low[1] == c1 && low[2] == c2 && low[3] == c3);
        if r {
            assert(lowered(field@) =~= "none"@ || lowered(field@) =~= "null"@);
        } else {
            assert("none"@[0] == 'n' && "none"@[1] == 'o' && "none"@[2] == 'n' && "none"@[3] == 'e');
            assert("null"@[0] == 'n' && "null"@[1] == 'u' && "null"@[2] == 'l' && "null"@[3] == 'l');
        }
    }
    r
}

pub open spec fn kept_character() -> spec_fn(char) -> bool {
    |c: char| !separator(c)
}

proof fn stretch(s: Seq<char>, a: int)
    requires
        0 <= a <= s.len(),
    ensures
        forall|i: int| a <= i < field_start(s, a) ==> separator(#[trigger] s[i]),
        field_start(s, a) < s.len() ==> !separator(s[field_start(s, a)]),
        forall|i: int| a <= i < field_end(s, a) ==> !separator(#[trigger] s[i]),
        field_end(s, a) < s.len() ==> separator(s[field_end(s, a)]),
    decreases s.len() - a,
{
    if a < s.len() {
        stretch(s, a + 1);
    }
}

proof fn filter_keeps_all(s: Seq<char>)
    requires
        forall|i: int| 0 <= i < s.len() ==> !separator(#[trigger] s[i]),
    ensures
        s.filter(kept_character()) == s,
    decreases s.len(),
{
    reveal(Seq::filter);
    if s.len() > 0 {
        filter_keeps_all(s.drop_last());
        assert(s =~= s.drop_last().push(s.last()));
        assert(!separator(s[s.len() - 1]));
    }
    assert(s.filter(kept_character()) =~= s);
}

proof fn fields_from_hold(s: Seq<char>, a: int)
    requires
        0 <= a <= s.len(),
    ensures
        fields_from(s, a).flatten() == s.skip(a).filter(kept_character()),
        forall|i: int| 0 <= i < fields_from(s, a).len() ==> (#[trigger] fields_from(s, a)[i]).len() > 0,
        forall|i: int, j: int|
            0 <= i < fields_from(s, a).len() && 0 <= j < fields_from(s, a)[i].len() ==> !separator(
                #[trigger] fields_from(s, a)[i][j],
            ),
    decreases s.len() - a,
{
    let b = field_start(s, a);
    starts_in_range(s, a);
    stretch(s, a);
    starts_in_range(s, b);
    stretch(s, b);
    let e = field_end(s, b);
    let (gap, field) = (s.subrange(a, b), s.subrange(b, e));
    gap.lemma_all_neg_filter_empty(kept_character());
    filter_keeps_all(field);
    assert(s.skip(a) =~= gap + (field + s.skip(e)));
    Seq::filter_distributes_over_add(gap, field + s.skip(e), kept_character());
    Seq::filter_distributes_over_add(field, s.skip(e), kept_character());
    assert(s.skip(a).filter(kept_character()) =~= field + s.skip(e).filter(kept_character()));
    let all = fields_from(s, a);
    if b < s.len() {
        assert(b < e);
        fields_from_hold(s, e);
        let rest = fields_from(s, e);
        assert(all == seq![field] + rest);
        assert(all.drop_first() =~= rest);
        assert(all.first() == field);
        assert forall|i: int| 0 <= i < all.len() implies (#[trigger] all[i]).len() > 0 by {
            if i > 0 {
                assert(all[i] == rest[i - 1]);
            }
        }
        assert forall|i: int, j: int| 0 <= i < all.len() && 0 <= j < all[i].len() implies !separator(
            #[trigger] all[i][j],
        ) by {
            if i > 0 {
                assert(all[i] == rest[i - 1]);
                assert(!separator(rest[i - 1][j]));
            } else {
                assert(field[j] == s[b + j]);
            }
        }
    } else {
        assert(all =~= Seq::<Seq<char>>::empty());
        assert(all.flatten() =~= Seq::<char>::empty());
        assert(field =~= Seq::<char>::empty());
        assert(s.skip(e) =~= Seq::<char>::empty());
        reveal(Seq::filter);
        assert(s.skip(e).filter(kept_character()) =~= Seq::<char>::empty());
    }
}

/// The fields hold every character of the line but separators and the white
/// space at its ends, in order; no field is empty.
pub proof fn fields_hold_the_line(line: Seq<char>)
    ensures
        fields(line).flatten() == trimmed(line).filter(kept_character()),
        forall|i: int| 0 <= i < fields(line).len() ==> (#[trigger] fields(line)[i]).len() > 0,
        forall|i: int, j: int|
            0 <= i < fields(line).len() && 0 <= j < fields(line)[i].len() ==> !separator(
                #[trigger] fields(line)[i][j],
            ),
{
    let t = trimmed(line);
    fields_from_hold(t, 0);
    assert(t.skip(0) =~= t);
}

proof fn trim_start_finds(s: Seq<char>, a: int)
    requires
        0 <= a <= s.len(),
    ensures
        a <= trim_start(s, a) <= s.len(),
        forall|i: int| a <= i < trim_start(s, a) ==> white_space(#[trigger] s[i]),
        trim_start(s, a) < s.len() ==> !white_space(s[trim_start(s, a)]),
    decreases s.len() - a,
{
    if a < s.len() && white_space(s[a]) {
        trim_start_finds(s, a + 1);
    }
}

proof fn trim_end_finds(s: Seq<char>, a: int, b: int)
    requires
        0 <= a <= b <= s.len(),
    ensures
        a <= trim_end(s, a, b) <= b,
        forall|i: int| trim_end(s, a, b) <= i < b ==> white_space(#[trigger] s[i]),
        trim_end(s, a, b) > a ==> !white_space(s[trim_end(s, a, b) - 1]),
    decreases b - a,
{
    if a < b && white_space(s[b - 1]) {
        trim_end_finds(s, a, b - 1);
    }
}

/// What is left of a line neither begins nor ends with white space, and
/// nothing but white space was taken off its ends.
pub proof fn trimmed_is_bare(s: Seq<char>)
    ensures
        trimmed(s).len() > 0 ==> !white_space(trimmed(s).first()) && !white_space(trimmed(s).last()),
        exists|a: int, b: int|
            {
                &&& 0 <= a <= b <= s.len()
                &&& trimmed(s) == #[trigger] s.subrange(a, b)
                &&& forall|i: int| 0 <= i < a || b <= i < s.len() ==> white_space(#[trigger] s[i])
            },
{
    trim_start_finds(s, 0);
    let a = trim_start(s, 0);
    trim_end_finds(s, a, s.len() as int);
    let b = trim_end(s, a, s.len() as int);
    assert(trimmed(s) == s.subrange(a, b));
}

/// Nothing is left of a line where it holds nothing but white space, and only
/// there.
pub proof fn blank_lines_leave_nothing(s: Seq<char>)
    ensures
        trimmed(s).len() == 0 <==> forall|i: int| 0 <= i < s.len() ==> white_space(#[trigger] s[i]),
{
    trim_start_finds(s, 0);
    let a = trim_start(s, 0);
    trim_end_finds(s, a, s.len() as int);
    let b = trim_end(s, a, s.len() as int);
    if a < s.len() {
        assert(!white_space(s[a]));
    }
}

/// Where the fields of `s` from `a` on begin and end.
pub open spec fn places_from(s: Seq<char>, a: int) -> Seq<(int, int)>
    decreases s.len() - a,
{
    let b = field_start(s, a);
    let e = field_end(s, b);
    if a <= b < e <= s.len() {
        seq![(b, e)] + places_from(s, e)
    } else {
        Seq::empty()
    }
}

proof fn places_hold(s: Seq<char>, a: int)
    requires
        0 <= a <= s.len(),
    ensures
        places_from(s, a).len() == fields_from(s, a).len(),
        forall|i: int|
            0 <= i < places_from(s, a).len() ==> {
                let (b, e) = #[trigger] places_from(s, a)[i];
                &&& a <= b < e <= s.len()
                &&& fields_from(s, a)[i] == s.subrange(b, e)
                &&& b == a || s[b - 1] == ',' || s[b - 1] == ' '
                &&& e == s.len() || s[e] == ',' || s[e] == ' '
            },
        forall|i: int, j: int|
            0 <= i < j < places_from(s, a).len() ==> (#[trigger] places_from(s, a)[i]).1 <= (
            #[trigger] places_from(s, a)[j]).0,
        forall|p: int|
            a <= p < s.len() && #[trigger] s[p] != ',' && s[p] != ' ' ==> exists|i: int|
                0 <= i < places_from(s, a).len() && (#[trigger] places_from(s, a)[i]).0 <= p < places_from(s, a)[i].1,
    decreases s.len() - a,
{
    let b = field_start(s, a);
    starts_in_range(s, a);
    stretch(s, a);
    starts_in_range(s, b);
    stretch(s, b);
    let e = field_end(s, b);
    let all = places_from(s, a);
    if b < s.len() {
        assert(b < e);
        places_hold(s, e);
        let rest = places_from(s, e);
        assert(all == seq![(b, e)] + rest);
        assert(fields_from(s, a) == seq![s.subrange(b, e)] + fields_from(s, e));
        assert forall|i: int| 0 <= i < all.len() implies {
            let (b, e) = #[trigger] all[i];
            &&& a <= b < e <= s.len()
            &&& fields_from(s, a)[i] == s.subrange(b, e)
            &&& b == a || s[b - 1] == ',' || s[b - 1] == ' '
            &&& e == s.len() || s[e] == ',' || s[e] == ' '
        } by {
            if i > 0 {
                assert(all[i] == rest[i - 1]);
                assert(fields_from(s, a)[i] == fields_from(s, e)[i - 1]);
                if all[i].0 == e {
                    assert(separator(s[e]));
                    assert(fields_from(s, e)[i - 1] == s.subrange(e, all[i].1));
                    fields_from_hold(s, e);
                    assert(!separator(fields_from(s, e)[i - 1][0]));
                }
            } else if b > a {
                assert(separator(s[b - 1]));
            }
        }
        assert forall|i: int, j: int| 0 <= i < j < all.len() implies (#[trigger] all[i]).1 <= (#[trigger] all[j]).0 by {
            assert(all[j] == rest[j - 1]);
            if i > 0 {
                assert(all[i] == rest[i - 1]);
            }
        }
        assert forall|p: int| a <= p < s.len() && #[trigger] s[p] != ',' && s[p] != ' ' implies exists|i: int|
            0 <= i < all.len() && (#[trigger] all[i]).0 <= p < all[i].1 by {
            if p < e {
                assert(all[0] == (b, e));
                assert(p < b ==> separator(s[p]));
            } else {
                let i = choose|i: int| 0 <= i < rest.len() && (#[trigger] rest[i]).0 <= p < rest[i].1;
                assert(all[i + 1] == rest[i]);
            }
        }
    }
}

/// The fields of a line are the longest stretches without a comma or a space of
/// what is left of it without the white space at its ends: each of them is one,
/// they come in order, and everything else is commas and spaces.
pub proof fn fields_are_the_stretches(line: Seq<char>)
    ensures
        ({
            let t = trimmed(line);
            let places = places_from(t, 0);
            &&& places.len() == fields(line).len()
            &&& forall|i: int|
                0 <= i < places.len() ==> {
                    let (b, e) = #[trigger] places[i];
                    &&& 0 <= b < e <= t.len()
                    &&& fields(line)[i] == t.subrange(b, e)
                    &&& b == 0 || t[b - 1] == ',' || t[b - 1] == ' '
                    &&& e == t.len() || t[e] == ',' || t[e] == ' '
                }
            &&& forall|i: int, p: int|
                0 <= i < fields(line).len() && 0 <= p < fields(line)[i].len() ==> #[trigger] fields(line)[i][p] != ','
                    && fields(line)[i][p] != ' '
            &&& forall|i: int, j: int|
                0 <= i < j < places.len() ==> (#[trigger] places[i]).1 <= (#[trigger] places[j]).0
            &&& forall|p: int|
                0 <= p < t.len() && #[trigger] t[p] != ',' && t[p] != ' ' ==> exists|i: int|
                    0 <= i < places.len() && (#[trigger] places[i]).0 <= p < places[i].1
        }),
{
    let t = trimmed(line);
    places_hold(t, 0);
    fields_from_hold(t, 0);
    assert forall|i: int, p: int| 0 <= i < fields(line).len() && 0 <= p < fields(line)[i].len() implies
        #[trigger] fields(line)[i][p] != ',' && fields(line)[i][p] != ' ' by {
        assert(!separator(fields_from(t, 0)[i][p]));
    }
}

/// The words that stand for no value are "none" and "null", in upper or lower
/// case.
pub proof fn missing_words(s: Seq<char>)
    ensures
        says_missing(s) <==> {
            &&& s.len() == 4
            &&& s[0] == 'n' || s[0] == 'N'
            &&& {
                ||| (s[1] == 'o' || s[1] == 'O') && (s[2] == 'n' || s[2] == 'N') && (s[3] == 'e' || s[3] == 'E')
                ||| (s[1] == 'u' || s[1] == 'U') && (s[2] == 'l' || s[2] == 'L') && (s[3] == 'l' || s[3] == 'L')
            }
        },
{
    reveal_strlit("none");
    reveal_strlit("null");
    let low = lowered(s);
    assert(low.len() == s.len());
    assert("none"@ =~= seq!['n', 'o', 'n', 'e']);
    assert("null"@ =~= seq!['n', 'u', 'l', 'l']);
    if s.len() == 4 {
        assert(low[0] == lower(s[0]) && low[1] == lower(s[1]) && low[2] == lower(s[2]) && low[3] == lower(s[3]));
        if low == "none"@ || low == "null"@ {
            assert(low[0] == 'n');
        }
        if (s[1] == 'o' || s[1] == 'O') && (s[2] == 'n' || s[2] == 'N') && (s[3] == 'e' || s[3] == 'E') {
            assert(s[0] == 'n' || s[0] == 'N' ==> low =~= "none"@);
        }
        if (s[1] == 'u' || s[1] == 'U') && (s[2] == 'l' || s[2] == 'L') && (s[3] == 'l' || s[3] == 'L') {
            assert(s[0] == 'n' || s[0] == 'N' ==> low =~= "null"@);
        }
        if low == "none"@ {
            assert(low[1] == 'o' && low[2] == 'n' && low[3] == 'e');
        }
        if low == "null"@ {
            assert(low[1] == 'u' && low[2] == 'l' && low[3] == 'l');
        }
    }
}

} // verus!
