//! Series labels: as they are given, as they are shown, and the way from one to
//! the other.

use vstd::prelude::*;

verus! {

pub open spec fn texts(labels: Seq<String>) -> Seq<Seq<char>> {
    labels.map_values(|s: String| s@)
}

/// `a` comes before `b`: at the first difference it has the lesser character,
/// or it ends there.
pub open spec fn text_before(a: Seq<char>, b: Seq<char>) -> bool {
    exists|k: int|
        {
            &&& 0 <= k <= a.len() && k < b.len()
            &&& #[trigger] a.take(k) == b.take(k)
            &&& k == a.len() || (a[k] as u32) < (b[k] as u32)
        }
}

/// No text comes before one that stands ahead of it.
pub open spec fn in_text_order(s: Seq<Seq<char>>) -> bool {
    forall|i: int, j: int| 0 <= i < j < s.len() ==> !text_before(#[trigger] s[j], #[trigger] s[i])
}

/// `k` is the first place where `t` stands.
pub open spec fn first_at(s: Seq<Seq<char>>, t: Seq<char>, k: int) -> bool {
    &&& 0 <= k < s.len()
    &&& s[k] == t
    &&& forall|j: int| 0 <= j < k ==> #[trigger] s[j] != t
}

/// `way` leads from each of `given` to the first of `shown` with its text, or
/// to the first of all where there is none.
pub open spec fn leads(given: Seq<Seq<char>>, shown: Seq<Seq<char>>, way: Seq<usize>) -> bool {
    &&& way.len() == given.len()
    &&& forall|i: int|
        0 <= i < given.len() ==> if shown.contains(given[i]) {
            first_at(shown, given[i], #[trigger] way[i] as int)
        } else {
            way[i] == 0
        }
}

/// The labels that are given, or the one that stands for none.
pub fn given_labels(labels: Option<Vec<String>>) -> (r: Vec<String>)
    ensures
        labels matches Some(v) ==> r == v,
        labels is None ==> texts(r@) == seq!["Series 1"@],
{
    match labels {
        Some(v) => v,
        None => {
            let mut v: Vec<String> = Vec::new();
            v.push("Series 1".to_owned());
            assert(texts(v@) =~= seq!["Series 1"@]);
            v
        },
    }
}

/// Sorts texts with `<[String]>::sort`, which orders strings by their code
/// points: what comes out is in text order and holds the same texts.
#[verifier::external_body]
fn sort_texts(labels: &mut Vec<String>)
    ensures
        in_text_order(texts(final(labels)@)),
        texts(final(labels)@).to_multiset() == texts(old(labels)@).to_multiset(),
{
    labels.sort();
}

/// The labels in the order in which they are shown.
pub fn display_labels(given: &Vec<String>, sort_labels: bool) -> (r: Vec<String>)
    ensures
        texts(r@).to_multiset() == texts(given@).to_multiset(),
        sort_labels ==> in_text_order(texts(r@)),
        !sort_labels ==> texts(r@) == texts(given@),
{
    let mut shown: Vec<String> = Vec::new();
    let mut i: usize = 0;
    while i < given.len()
        invariant
            i <= given@.len(),
            texts(shown@) == texts(given@).take(i as int),
        decreases given@.len() - i,
    {
        let ghost before = shown@;
        let label: String = given[i].clone();
        shown.push(label);
        i = i + 1;
        proof {
            assert(texts(shown@) =~= texts(before).push(label@));
            assert(texts(given@).take(i as int) =~= texts(given@).take(i - 1).push(label@));
        }
    }
    assert(texts(shown@) =~= texts(given@));
    if sort_labels {
        sort_texts(&mut shown);
    }
    shown
}

/// The place of each given label among those that are shown.
pub fn input_to_display_map(given: &Vec<String>, shown: &Vec<String>) -> (r: Vec<usize>)
    ensures
        leads(texts(given@), texts(shown@), r@),
{
    let mut way: Vec<usize> = Vec::new();
    let mut i: usize = 0;
    while i < given.len()
        invariant
            i <= given@.len(),
            leads(texts(given@).take(i as int), texts(shown@), way@),
        decreases given@.len() - i,
    {
        let ghost t = texts(given@)[i as int];
        let ghost s = texts(shown@);
        let mut k: usize = 0;
        while k < shown.len() && !(shown[k] == given[i])
            invariant
                i < given@.len(),
                t == texts(given@)[i as int],
                s == texts(shown@),
                k <= shown@.len(),
                forall|j: int| 0 <= j < k ==> #[trigger] s[j] != t,
            decreases shown@.len() - k,
        {
            k = k + 1;
        }
        let found: bool = k < shown.len();
        let place: usize = if found { k } else { 0 };
        let ghost before = way@;
        way.push(place);
        proof {
            let longer = texts(given@).take(i + 1);
            if found {
                assert(s[k as int] == t);
                assert(s.contains(t));
            } else {
                assert(!s.contains(t));
            }
            assert forall|j: int| 0 <= j < longer.len() implies if s.contains(longer[j]) {
                first_at(s, longer[j], #[trigger] way@[j] as int)
            } else {
                way@[j] == 0
            } by {
                if j < i {
                    assert(texts(given@).take(i as int)[j] == longer[j]);
                    assert(way@[j] == before[j]);
                }
            }
        }
        i = i + 1;
    }
    assert(texts(given@).take(given@.len() as int) =~= texts(given@));
    way
}

/// Texts are ordered by what follows the part they begin with in common: there,
/// what goes on comes after what ends, and a lesser character before a greater.
pub proof fn texts_in_order(common: Seq<char>, a: Seq<char>, b: Seq<char>)
    requires
        a.len() > 0 && b.len() > 0 ==> a[0] != b[0],
    ensures
        text_before(common + a, common + b) <==> b.len() > 0 && (a.len() == 0 || (a[0] as u32) < (b[0] as u32)),
{
    let (s, t) = (common + a, common + b);
    let n = common.len() as int;
    if text_before(s, t) {
        let k = choose|k: int|
            {
                &&& 0 <= k <= s.len() && k < t.len()
                &&& #[trigger] s.take(k) == t.take(k)
                &&& k == s.len() || (s[k] as u32) < (t[k] as u32)
            };
        if k < n {
            assert(s[k] == t[k]);
        }
        if k > n {
            assert(s.take(k)[n] == t.take(k)[n]);
        }
    }
    if b.len() > 0 && (a.len() == 0 || (a[0] as u32) < (b[0] as u32)) {
        assert(s.take(n) =~= t.take(n));
    }
}

/// In text order, no text stands after one that it comes before.
pub proof fn sorted_texts_stand_in_order(s: Seq<Seq<char>>, i: int, j: int)
    requires
        in_text_order(s),
        0 <= i < j < s.len(),
    ensures
        !text_before(s[j], s[i]),
{
}

/// The way from a given label leads to the first place where its text is shown,
/// and to the very first where it is shown nowhere.
pub proof fn ways_lead_to_the_first(given: Seq<Seq<char>>, shown: Seq<Seq<char>>, way: Seq<usize>, i: int)
    requires
        leads(given, shown, way),
        0 <= i < given.len(),
    ensures
        way.len() == given.len(),
        (exists|k: int| 0 <= k < shown.len() && #[trigger] shown[k] == given[i]) ==> {
            &&& way[i] < shown.len()
            &&& shown[way[i] as int] == given[i]
            &&& forall|k: int| 0 <= k < way[i] ==> #[trigger] shown[k] != given[i]
        },
        (forall|k: int| 0 <= k < shown.len() ==> #[trigger] shown[k] != given[i]) ==> way[i] == 0,
{
    assert(shown.contains(given[i]) ==> first_at(shown, given[i], way[i] as int));
}

/// Where the same labels are shown, whatever their order, the way from a given
/// label leads to its own text, and different labels go different ways.
pub proof fn labels_are_found_again(given: Seq<Seq<char>>, shown: Seq<Seq<char>>, way: Seq<usize>)
    requires
        shown.to_multiset() == given.to_multiset(),
        leads(given, shown, way),
    ensures
        shown.len() == given.len(),
        forall|i: int|
            0 <= i < given.len() ==> (#[trigger] way[i]) < shown.len() && shown[way[i] as int] == given[i],
        forall|i: int, j: int|
            0 <= i < given.len() && 0 <= j < given.len() && given[i] != given[j] ==> #[trigger] way[i]
                != #[trigger] way[j],
{
    broadcast use vstd::seq_lib::group_to_multiset_ensures;

    assert(shown.to_multiset().len() == shown.len());
    assert(given.to_multiset().len() == given.len());
    assert forall|i: int| 0 <= i < given.len() implies (#[trigger] way[i]) < shown.len()
        && shown[way[i] as int] == given[i] by {
        assert(given.contains(given[i]));
        assert(given.to_multiset().count(given[i]) > 0);
        assert(shown.contains(given[i]));
    }
}

} // verus!
