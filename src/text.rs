//! Character-level helpers: ordering of label values, substring tests, and
//! the label fingerprint built from a sample's label values.
use vstd::prelude::*;
use vstd::string::StringExecFns;
use vstd::relations::{sorted_by, total_ordering};
use vstd::seq_lib::{lemma_multiset_commutative, lemma_sorted_unique};

verus! {

/// Lexicographic order on character sequences, by code point. This is the
/// order in which `String`s compare, since UTF-8 keeps code point order.
pub open spec fn label_leq(a: Seq<char>, b: Seq<char>) -> bool
    decreases a.len(),
{
    if a.len() == 0 {
        true
    } else if b.len() == 0 {
        false
    } else if a[0] != b[0] {
        a[0] < b[0]
    } else {
        label_leq(a.drop_first(), b.drop_first())
    }
}

/// The label values in the canonical (sorted) order.
pub open spec fn sorted_labels(values: Seq<Seq<char>>) -> Seq<Seq<char>> {
    values.sort_by(|a: Seq<char>, b: Seq<char>| label_leq(a, b))
}

/// Each value preceded by `_`, all concatenated: `_a_b_c`, or empty for no values.
pub open spec fn underscore_join(values: Seq<Seq<char>>) -> Seq<char>
    decreases values.len(),
{
    if values.len() == 0 {
        Seq::empty()
    } else {
        underscore_join(values.drop_last()) + seq!['_'] + values.last()
    }
}

/// The label fingerprint: the sorted label values joined by `_`, with a
/// leading `_` when there is at least one value.
pub open spec fn fingerprint_of(values: Seq<Seq<char>>) -> Seq<char> {
    underscore_join(sorted_labels(values))
}

/// `needle` occurs in `hay` as a contiguous run of characters.
pub open spec fn has_substring(hay: Seq<char>, needle: Seq<char>) -> bool {
    exists|k: int|
        0 <= k && k + needle.len() <= hay.len() && #[trigger] hay.subrange(k, k + needle.len())
            == needle
}

/// `prefix` starts `s`.
pub open spec fn has_prefix(s: Seq<char>, prefix: Seq<char>) -> bool {
    prefix.len() <= s.len() && s.subrange(0, prefix.len() as int) == prefix
}

pub proof fn lemma_leq_reflexive(a: Seq<char>)
    ensures
        label_leq(a, a),
    decreases a.len(),
{
    if a.len() > 0 {
        lemma_leq_reflexive(a.drop_first());
    }
}

proof fn lemma_leq_antisymmetric(a: Seq<char>, b: Seq<char>)
    requires
        label_leq(a, b),
        label_leq(b, a),
    ensures
        a == b,
    decreases a.len(),
{
    if a.len() > 0 && b.len() > 0 {
        if a[0] == b[0] {
            lemma_leq_antisymmetric(a.drop_first(), b.drop_first());
            assert(a =~= seq![a[0]] + a.drop_first());
            assert(b =~= seq![b[0]] + b.drop_first());
        }
    } else {
        assert(a.len() == 0 && b.len() == 0);
        assert(a =~= b);
    }
}

proof fn lemma_leq_transitive(a: Seq<char>, b: Seq<char>, c: Seq<char>)
    requires
        label_leq(a, b),
        label_leq(b, c),
    ensures
        label_leq(a, c),
    decreases a.len(),
{
    if a.len() > 0 && b.len() > 0 && c.len() > 0 {
        if a[0] == b[0] && b[0] == c[0] {
            lemma_leq_transitive(a.drop_first(), b.drop_first(), c.drop_first());
        }
    }
}

pub proof fn lemma_leq_total(a: Seq<char>, b: Seq<char>)
    ensures
        label_leq(a, b) || label_leq(b, a),
    decreases a.len(),
{
    if a.len() > 0 && b.len() > 0 {
        if a[0] == b[0] {
            lemma_leq_total(a.drop_first(), b.drop_first());
        } else {
            assert(a[0] < b[0] || b[0] < a[0]);
        }
    }
}

/// `label_leq` is a total order, so sorting by it has one result.
pub proof fn lemma_label_order_total()
    ensures
        total_ordering(|a: Seq<char>, b: Seq<char>| label_leq(a, b)),
{
    let leq = |a: Seq<char>, b: Seq<char>| label_leq(a, b);
    assert forall|a: Seq<char>| #[trigger] leq(a, a) by {
        lemma_leq_reflexive(a);
    }
    assert forall|a: Seq<char>, b: Seq<char>| #[trigger] leq(a, b) && #[trigger] leq(b, a) implies a
        == b by {
        lemma_leq_antisymmetric(a, b);
    }
    assert forall|a: Seq<char>, b: Seq<char>, c: Seq<char>|
        #[trigger] leq(a, b) && #[trigger] leq(b, c) implies leq(a, c) by {
        lemma_leq_transitive(a, b, c);
    }
    assert forall|a: Seq<char>, b: Seq<char>| #[trigger] leq(a, b) || leq(b, a) by {
        lemma_leq_total(a, b);
    }
}

/// The fingerprint does not depend on the order in which the label values
/// come: any two orderings of the same values give the same fingerprint.
pub proof fn lemma_fingerprint_order_free(a: Seq<Seq<char>>, b: Seq<Seq<char>>)
    requires
        a.to_multiset() == b.to_multiset(),
    ensures
        fingerprint_of(a) == fingerprint_of(b),
{
    let leq = |x: Seq<char>, y: Seq<char>| label_leq(x, y);
    lemma_label_order_total();
    a.lemma_sort_by_ensures(leq);
    b.lemma_sort_by_ensures(leq);
    lemma_sorted_unique(sorted_labels(a), sorted_labels(b), leq);
}

/// The characters of `s`, one per element.
pub fn chars_of(s: &str) -> (r: Vec<char>)
    ensures
        r@ == s@,
{
    let n = s.unicode_len();
    let mut r: Vec<char> = Vec::new();
    let mut i: usize = 0;
    while i < n
        invariant
            n == s@.len(),
            i <= n,
            r@ == s@.subrange(0, i as int),
        decreases n - i,
    {
        r.push(s.get_char(i));
        i = i + 1;
        assert(r@ =~= s@.subrange(0, i as int));
    }
    assert(r@ =~= s@);
    r
}

/// Whether `a` comes before `b`, or equals it, in `label_leq` order.
pub fn label_le(a: &str, b: &str) -> (r: bool)
    ensures
        r == label_leq(a@, b@),
{
    let x = chars_of(a);
    let y = chars_of(b);
    let mut i: usize = 0;
    assert(a@.subrange(0, a@.len() as int) =~= a@);
    assert(b@.subrange(0, b@.len() as int) =~= b@);
    while i < x.len() && i < y.len() && x[i] == y[i]
        invariant
            x@ == a@,
            y@ == b@,
            i <= x.len(),
            i <= y.len(),
            x@.subrange(0, i as int) == y@.subrange(0, i as int),
            label_leq(a@, b@) == label_leq(a@.subrange(i as int, a@.len() as int), b@.subrange(i as int, b@.len() as int)),
        decreases x.len() - i,
    {
        let ghost sa = a@.subrange(i as int, a@.len() as int);
        let ghost sb = b@.subrange(i as int, b@.len() as int);
        assert(sa.drop_first() =~= a@.subrange(i + 1, a@.len() as int));
        assert(sb.drop_first() =~= b@.subrange(i + 1, b@.len() as int));
        i = i + 1;
        assert(x@.subrange(0, i as int) =~= y@.subrange(0, i as int)) by {
            assert forall|k: int| 0 <= k < i implies x@.subrange(0, i as int)[k] == y@.subrange(0, i as int)[k] by {
                if k < i - 1 {
                    assert(x@.subrange(0, i - 1)[k] == y@.subrange(0, i - 1)[k]);
                }
            }
        }
    }
    if i == x.len() {
        true
    } else if i == y.len() {
        false
    } else {
        x[i] < y[i]
    }
}

/// Whether `a` and `b` hold the same characters.
pub fn str_eq(a: &str, b: &str) -> (r: bool)
    ensures
        r == (a@ == b@),
{
    let x = chars_of(a);
    let y = chars_of(b);
    if x.len() != y.len() {
        return false;
    }
    let mut i: usize = 0;
    while i < x.len()
        invariant
            x@ == a@,
            y@ == b@,
            x.len() == y.len(),
            i <= x.len(),
            forall|j: int| 0 <= j < i ==> x@[j] == y@[j],
        decreases x.len() - i,
    {
        if x[i] != y[i] {
            return false;
        }
        i = i + 1;
    }
    assert(x@ =~= y@);
    true
}

/// Whether `needle` occurs in `hay`.
pub fn contains_str(hay: &str, needle: &str) -> (r: bool)
    ensures
        r == has_substring(hay@, needle@),
{
    let h = chars_of(hay);
    let n = chars_of(needle);
    if n.len() > h.len() {
        assert forall|k: int| 0 <= k && k + n@.len() <= h@.len() implies #[trigger] hay@.subrange(k, k + needle@.len()) != needle@ by {}
        return false;
    }
    let last = h.len() - n.len();
    let mut k: usize = 0;
    while k <= last
        invariant
            h@ == hay@,
            n@ == needle@,
            last == h.len() - n.len(),
            k <= last + 1,
            forall|j: int| 0 <= j < k ==> #[trigger] hay@.subrange(j, j + needle@.len()) != needle@,
        decreases last + 1 - k,
    {
        let mut j: usize = 0;
        while j < n.len() && h[k + j] == n[j]
            invariant
                h@ == hay@,
                n@ == needle@,
                k <= last,
                last == h.len() - n.len(),
                j <= n.len(),
                forall|m: int| 0 <= m < j ==> h@[k + m] == n@[m],
            decreases n.len() - j,
        {
            j = j + 1;
        }
        if j == n.len() {
            assert(hay@.subrange(k as int, k + needle@.len()) =~= needle@);
            return true;
        }
        assert(hay@.subrange(k as int, k + needle@.len())[j as int] != needle@[j as int]);
        k = k + 1;
    }
    false
}

/// Whether `s` starts with `prefix`.
pub fn starts_with_str(s: &str, prefix: &str) -> (r: bool)
    ensures
        r == has_prefix(s@, prefix@),
{
    let c = chars_of(s);
    let p = chars_of(prefix);
    if p.len() > c.len() {
        return false;
    }
    let mut j: usize = 0;
    while j < p.len()
        invariant
            c@ == s@,
            p@ == prefix@,
            p.len() <= c.len(),
            j <= p.len(),
            forall|m: int| 0 <= m < j ==> c@[m] == p@[m],
        decreases p.len() - j,
    {
        if c[j] != p[j] {
            assert(s@.subrange(0, prefix@.len() as int)[j as int] != prefix@[j as int]);
            return false;
        }
        j = j + 1;
    }
    assert(s@.subrange(0, prefix@.len() as int) =~= prefix@);
    true
}

/// Every element is `label_leq` to every later one.
pub open spec fn labels_ascending(s: Seq<Seq<char>>) -> bool {
    forall|a: int, b: int| 0 <= a < b < s.len() ==> label_leq(#[trigger] s[a], #[trigger] s[b])
}

/// The views of a vector of strings.
pub open spec fn string_views(v: Seq<String>) -> Seq<Seq<char>> {
    v.map_values(|s: String| s@)
}

pub proof fn lemma_insert_keeps_order(old_out: Seq<Seq<char>>, x: Seq<char>, p: int)
    requires
        0 <= p <= old_out.len(),
        labels_ascending(old_out),
        forall|q: int| 0 <= q < p ==> label_leq(#[trigger] old_out[q], x),
        p < old_out.len() ==> label_leq(x, old_out[p]),
    ensures
        labels_ascending(old_out.insert(p, x)),
{
    let new_out = old_out.insert(p, x);
    assert forall|a: int, b: int| 0 <= a < b < new_out.len() implies label_leq(
        #[trigger] new_out[a],
        #[trigger] new_out[b],
    ) by {
        if b < p {
        } else if b == p {
        } else {
            assert(new_out[b] == old_out[b - 1]);
            if b - 1 > p {
                assert(label_leq(old_out[p], old_out[b - 1]));
            } else {
                lemma_leq_reflexive(old_out[p]);
            }
            if a < p {
                lemma_leq_transitive(old_out[a], x, old_out[p]);
                lemma_leq_transitive(old_out[a], old_out[p], old_out[b - 1]);
            } else if a == p {
                lemma_leq_transitive(x, old_out[p], old_out[b - 1]);
            } else {
                assert(new_out[a] == old_out[a - 1]);
            }
        }
    }
}

proof fn lemma_insert_multiset(s: Seq<Seq<char>>, x: Seq<char>, p: int)
    requires
        0 <= p <= s.len(),
    ensures
        s.insert(p, x).to_multiset() == s.to_multiset().insert(x),
{
    broadcast use vstd::seq_lib::group_to_multiset_ensures;

    let l = s.subrange(0, p);
    let r = s.subrange(p, s.len() as int);
    assert(s.insert(p, x) =~= l + seq![x] + r);
    assert(s =~= l + r);
    lemma_multiset_commutative(l + seq![x], r);
    lemma_multiset_commutative(l, seq![x]);
    lemma_multiset_commutative(l, r);
    assert(seq![x] =~= Seq::<Seq<char>>::empty().push(x));
    assert(seq![x].to_multiset() =~= vstd::multiset::Multiset::<Seq<char>>::empty().insert(x));
    assert(s.insert(p, x).to_multiset() =~= s.to_multiset().insert(x));
}

/// Sorts the label values into `label_leq` order.
fn sort_labels(values: Vec<String>) -> (r: Vec<String>)
    ensures
        string_views(r@) == sorted_labels(string_views(values@)),
{
    let ghost input = string_views(values@);
    let mut out: Vec<String> = Vec::new();
    let mut i: usize = 0;
    assert(input.subrange(0, 0) =~= Seq::<Seq<char>>::empty());
    assert(string_views(out@) =~= Seq::<Seq<char>>::empty());
    while i < values.len()
        invariant
            i <= values.len(),
            input == string_views(values@),
            labels_ascending(string_views(out@)),
            string_views(out@).to_multiset() == input.subrange(0, i as int).to_multiset(),
        decreases values.len() - i,
    {
        let x = values[i].clone();
        let mut p: usize = 0;
        while p < out.len() && label_le(out[p].as_str(), x.as_str())
            invariant
                p <= out.len(),
                forall|q: int| 0 <= q < p ==> label_leq(#[trigger] out@[q]@, x@),
            decreases out.len() - p,
        {
            p = p + 1;
        }
        let ghost old_out = string_views(out@);
        proof {
            if p < out.len() {
                assert(old_out[p as int] == out@[p as int]@);
                lemma_leq_total(old_out[p as int], x@);
            }
            assert forall|q: int| 0 <= q < p implies label_leq(#[trigger] old_out[q], x@) by {
                assert(old_out[q] == out@[q]@);
            }
            lemma_insert_keeps_order(old_out, x@, p as int);
            lemma_insert_multiset(old_out, x@, p as int);
        }
        out.insert(p, x);
        proof {
            assert(string_views(out@) =~= old_out.insert(p as int, x@));
            assert(input.subrange(0, i + 1) =~= input.subrange(0, i as int).push(x@));
            input.subrange(0, i as int).to_multiset_ensures();
        }
        i = i + 1;
    }
    proof {
        let leq = |a: Seq<char>, b: Seq<char>| label_leq(a, b);
        assert(input.subrange(0, values.len() as int) =~= input);
        lemma_label_order_total();
        input.lemma_sort_by_ensures(leq);
        assert(sorted_by(string_views(out@), leq));
        lemma_sorted_unique(string_views(out@), sorted_labels(input), leq);
    }
    out
}

/// The label fingerprint of a sample with the given label values.
pub fn label_fingerprint(values: Vec<String>) -> (r: String)
    ensures
        r@ == fingerprint_of(string_views(values@)),
{
    let sorted = sort_labels(values);
    let ghost sv = string_views(sorted@);
    let mut r = String::new();
    let mut i: usize = 0;
    while i < sorted.len()
        invariant
            i <= sorted.len(),
            sv == string_views(sorted@),
            r@ == underscore_join(sv.subrange(0, i as int)),
        decreases sorted.len() - i,
    {
        proof {
            reveal_strlit("_");
        }
        r.append("_");
        r.append(sorted[i].as_str());
        assert(sv.subrange(0, i + 1).drop_last() =~= sv.subrange(0, i as int));
        i = i + 1;
    }
    assert(sv.subrange(0, sorted.len() as int) =~= sv);
    r
}

} // verus!
