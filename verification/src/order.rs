//! The order of strings (`String`'s `Ord`: by characters, which for UTF-8
//! text is the order of its bytes), and sorted lists without duplicates.

use vstd::prelude::*;
use crate::text::chars_of;

verus! {

/// `a` comes strictly before `b`.
pub open spec fn seq_less(a: Seq<char>, b: Seq<char>) -> bool
    decreases a.len(),
{
    if a.len() == 0 {
        b.len() > 0
    } else if b.len() == 0 {
        false
    } else if a[0] != b[0] {
        a[0] < b[0]
    } else {
        seq_less(a.drop_first(), b.drop_first())
    }
}

pub proof fn lemma_less_irreflexive(a: Seq<char>)
    ensures
        !seq_less(a, a),
    decreases a.len(),
{
    if a.len() > 0 {
        lemma_less_irreflexive(a.drop_first());
    }
}

pub proof fn lemma_less_transitive(a: Seq<char>, b: Seq<char>, c: Seq<char>)
    requires
        seq_less(a, b),
        seq_less(b, c),
    ensures
        seq_less(a, c),
    decreases a.len(),
{
    if a.len() > 0 && b.len() > 0 && c.len() > 0 && a[0] == b[0] && b[0] == c[0] {
        lemma_less_transitive(a.drop_first(), b.drop_first(), c.drop_first());
    }
}

pub proof fn lemma_less_total(a: Seq<char>, b: Seq<char>)
    ensures
        a == b || seq_less(a, b) || seq_less(b, a),
    decreases a.len(),
{
    if a.len() > 0 && b.len() > 0 && a[0] == b[0] {
        lemma_less_total(a.drop_first(), b.drop_first());
        if a.drop_first() == b.drop_first() {
            assert(a =~= seq![a[0]] + a.drop_first());
            assert(b =~= seq![b[0]] + b.drop_first());
        }
    } else if a.len() > 0 && b.len() > 0 {
    } else if a.len() == 0 && b.len() == 0 {
        assert(a =~= b);
    }
}

pub proof fn lemma_less_asymmetric(a: Seq<char>, b: Seq<char>)
    requires
        seq_less(a, b),
    ensures
        !seq_less(b, a),
{
    if seq_less(b, a) {
        lemma_less_transitive(a, b, a);
        lemma_less_irreflexive(a);
    }
}

/// Compares two character vectors.
pub fn chars_less(a: &Vec<char>, b: &Vec<char>) -> (r: bool)
    ensures
        r == seq_less(a@, b@),
{
    let mut i: usize = 0;
    assert(a@.skip(0) =~= a@);
    assert(b@.skip(0) =~= b@);
    while i < a.len() && i < b.len() && a[i] == b[i]
        invariant
            i <= a.len(),
            i <= b.len(),
            seq_less(a@, b@) == seq_less(a@.skip(i as int), b@.skip(i as int)),
        decreases a.len() - i,
    {
        assert(a@.skip(i as int).drop_first() =~= a@.skip(i + 1));
        assert(b@.skip(i as int).drop_first() =~= b@.skip(i + 1));
        i += 1;
    }
    if i == a.len() {
        i < b.len()
    } else if i == b.len() {
        false
    } else {
        assert(a@.skip(i as int)[0] == a@[i as int]);
        assert(b@.skip(i as int)[0] == b@[i as int]);
        a[i] < b[i]
    }
}

/// Compares two strings.
pub fn str_less(a: &str, b: &str) -> (r: bool)
    ensures
        r == seq_less(a@, b@),
{
    let ca = chars_of(a);
    let cb = chars_of(b);
    chars_less(&ca, &cb)
}

/// Each element comes strictly before the ones after it: sorted, no
/// element twice.
pub open spec fn strictly_sorted(s: Seq<Seq<char>>) -> bool {
    forall|i: int, j: int| 0 <= i < j < s.len() ==> seq_less(#[trigger] s[i], #[trigger] s[j])
}

/// The contents of a vector of strings.
pub open spec fn string_views(v: Seq<String>) -> Seq<Seq<char>> {
    v.map_values(|x: String| x@)
}

/// The elements of `set` in ascending order.
pub open spec fn sorted_list(set: Set<Seq<char>>) -> Seq<Seq<char>> {
    choose|s: Seq<Seq<char>>| strictly_sorted(s) && s.to_set() == set
}

proof fn lemma_sorted_head(s: Seq<Seq<char>>, x: Seq<char>)
    requires
        strictly_sorted(s),
        s.len() > 0,
        s.contains(x),
        x != s[0],
    ensures
        seq_less(s[0], x),
{
    let j = choose|j: int| 0 <= j < s.len() && s[j] == x;
    assert(j != 0);
    assert(seq_less(s[0], s[j]));
}

/// A strictly sorted sequence is determined by its set of elements.
pub proof fn lemma_sorted_unique(s1: Seq<Seq<char>>, s2: Seq<Seq<char>>)
    requires
        strictly_sorted(s1),
        strictly_sorted(s2),
        s1.to_set() == s2.to_set(),
    ensures
        s1 == s2,
    decreases s1.len(),
{
    if s1.len() == 0 {
        if s2.len() > 0 {
            assert(s2.to_set().contains(s2[0]));
        }
        assert(s1 =~= s2);
    } else if s2.len() == 0 {
        assert(s1.to_set().contains(s1[0]));
    } else {
        let a = s1[0];
        let b = s2[0];
        assert(s1.to_set().contains(a));
        assert(s2.to_set().contains(b));
        if a != b {
            lemma_sorted_head(s2, a);
            lemma_sorted_head(s1, b);
            lemma_less_asymmetric(a, b);
        }
        let t1 = s1.drop_first();
        let t2 = s2.drop_first();
        assert(strictly_sorted(t1)) by {
            assert forall|i: int, j: int| 0 <= i < j < t1.len() implies seq_less(
                #[trigger] t1[i],
                #[trigger] t1[j],
            ) by {
                assert(t1[i] == s1[i + 1] && t1[j] == s1[j + 1]);
            }
        }
        assert(strictly_sorted(t2)) by {
            assert forall|i: int, j: int| 0 <= i < j < t2.len() implies seq_less(
                #[trigger] t2[i],
                #[trigger] t2[j],
            ) by {
                assert(t2[i] == s2[i + 1] && t2[j] == s2[j + 1]);
            }
        }
        assert(t1.to_set() =~= t2.to_set()) by {
            assert forall|x: Seq<char>| t1.to_set().contains(x) implies t2.to_set().contains(x) by {
                let i = choose|i: int| 0 <= i < t1.len() && t1[i] == x;
                assert(s1[i + 1] == x);
                assert(seq_less(s1[0], s1[i + 1]));
                lemma_less_irreflexive(x);
                assert(s1.to_set().contains(x));
                assert(s2.contains(x));
                let j = choose|j: int| 0 <= j < s2.len() && s2[j] == x;
                assert(j != 0);
                assert(t2[j - 1] == x);
            }
            assert forall|x: Seq<char>| t2.to_set().contains(x) implies t1.to_set().contains(x) by {
                let i = choose|i: int| 0 <= i < t2.len() && t2[i] == x;
                assert(s2[i + 1] == x);
                assert(seq_less(s2[0], s2[i + 1]));
                lemma_less_irreflexive(x);
                assert(s2.to_set().contains(x));
                assert(s1.contains(x));
                let j = choose|j: int| 0 <= j < s1.len() && s1[j] == x;
                assert(j != 0);
                assert(t1[j - 1] == x);
            }
        }
        lemma_sorted_unique(t1, t2);
        assert(s1 =~= s2) by {
            assert forall|i: int| 0 <= i < s1.len() implies s1[i] == s2[i] by {
                if i > 0 {
                    assert(s1[i] == t1[i - 1]);
                    assert(s2[i] == t2[i - 1]);
                }
            }
        }
    }
}

/// What `sorted_list` gives, for a sequence that is strictly sorted.
pub proof fn lemma_sorted_list_is(s: Seq<Seq<char>>)
    requires
        strictly_sorted(s),
    ensures
        sorted_list(s.to_set()) == s,
{
    let t = sorted_list(s.to_set());
    assert(strictly_sorted(s) && s.to_set() == s.to_set());
    lemma_sorted_unique(t, s);
}

pub proof fn lemma_push_to_set<A>(s: Seq<A>, x: A)
    ensures
        s.push(x).to_set() == s.to_set().insert(x),
{
    assert forall|y: A| s.push(x).to_set().contains(y) implies s.to_set().insert(x).contains(y) by {
        let k = choose|k: int| 0 <= k < s.push(x).len() && s.push(x)[k] == y;
        if k < s.len() {
            assert(s[k] == y);
        }
    }
    assert forall|y: A| s.to_set().insert(x).contains(y) implies s.push(x).to_set().contains(y) by {
        if y == x {
            assert(s.push(x)[s.len() as int] == y);
        } else {
            let k = choose|k: int| 0 <= k < s.len() && s[k] == y;
            assert(s.push(x)[k] == y);
        }
    }
    assert(s.push(x).to_set() =~= s.to_set().insert(x));
}

/// Adds `x` to a strictly sorted vector, keeping it strictly sorted.
pub fn insert_sorted(v: &mut Vec<String>, x: String)
    requires
        strictly_sorted(string_views(old(v)@)),
    ensures
        strictly_sorted(string_views(final(v)@)),
        string_views(final(v)@).to_set() == string_views(old(v)@).to_set().insert(x@),
{
    let ghost old_views = string_views(v@);
    let mut p: usize = 0;
    while p < v.len() && str_less(v[p].as_str(), x.as_str())
        invariant
            p <= v.len(),
            v@ == old(v)@,
            old_views == string_views(v@),
            strictly_sorted(old_views),
            forall|i: int| 0 <= i < p ==> seq_less(#[trigger] old_views[i], x@),
        decreases v.len() - p,
    {
        p += 1;
    }
    if p < v.len() && v[p] == x {
        assert(old_views[p as int] == x@);
        assert(old_views.to_set() =~= old_views.to_set().insert(x@));
        return;
    }
    proof {
        if p < v.len() {
            lemma_less_total(old_views[p as int], x@);
            // x comes before v[p], hence before all that follow
            assert forall|j: int| p <= j < old_views.len() implies seq_less(
                x@,
                #[trigger] old_views[j],
            ) by {
                if j > p {
                    lemma_less_transitive(x@, old_views[p as int], old_views[j]);
                }
            }
        }
    }
    let ghost xv = x@;
    v.insert(p, x);
    proof {
        let nv = string_views(v@);
        assert(nv =~= old_views.insert(p as int, xv));
        assert forall|i: int, j: int| 0 <= i < j < nv.len() implies seq_less(
            #[trigger] nv[i],
            #[trigger] nv[j],
        ) by {
            if j < p {
            } else if j == p {
            } else if i < p {
                assert(nv[j] == old_views[j - 1]);
                if j - 1 > i {
                } else {
                }
                if i < j - 1 {
                    assert(seq_less(old_views[i], old_views[j - 1]));
                } else {
                    assert(seq_less(old_views[i], xv));
                }
            } else if i == p {
                assert(nv[j] == old_views[j - 1]);
            } else {
                assert(nv[i] == old_views[i - 1]);
                assert(nv[j] == old_views[j - 1]);
            }
        }
        assert(nv.to_set() =~= old_views.to_set().insert(xv)) by {
            assert forall|y: Seq<char>| nv.to_set().contains(y) implies old_views.to_set().insert(
                xv,
            ).contains(y) by {
                let i = choose|i: int| 0 <= i < nv.len() && nv[i] == y;
                if i < p {
                    assert(old_views[i] == y);
                } else if i > p {
                    assert(old_views[i - 1] == y);
                }
            }
            assert forall|y: Seq<char>| old_views.to_set().insert(xv).contains(y) implies nv.to_set().contains(
                y,
            ) by {
                if y == xv {
                    assert(nv[p as int] == y);
                } else {
                    let i = choose|i: int| 0 <= i < old_views.len() && old_views[i] == y;
                    if i < p {
                        assert(nv[i] == y);
                    } else {
                        assert(nv[i + 1] == y);
                    }
                }
            }
        }
    }
}

/// `items` sorted, each element once.
pub fn sorted_unique(items: &Vec<String>) -> (r: Vec<String>)
    ensures
        strictly_sorted(string_views(r@)),
        string_views(r@).to_set() == string_views(items@).to_set(),
        string_views(r@) == sorted_list(string_views(items@).to_set()),
{
    let mut r: Vec<String> = Vec::new();
    let mut i: usize = 0;
    while i < items.len()
        invariant
            i <= items.len(),
            strictly_sorted(string_views(r@)),
            string_views(r@).to_set() == string_views(items@.take(i as int)).to_set(),
        decreases items.len() - i,
    {
        let x = items[i].clone();
        insert_sorted(&mut r, x);
        proof {
            let prev = string_views(items@.take(i as int));
            let next = string_views(items@.take(i + 1));
            assert(next =~= prev.push(items@[i as int]@));
            assert(next.to_set() =~= prev.to_set().insert(items@[i as int]@)) by {
                assert forall|y: Seq<char>| next.to_set().contains(y) implies prev.to_set().insert(
                    items@[i as int]@,
                ).contains(y) by {
                    let k = choose|k: int| 0 <= k < next.len() && next[k] == y;
                    if k < prev.len() {
                        assert(prev[k] == y);
                    }
                }
                assert forall|y: Seq<char>| prev.to_set().insert(items@[i as int]@).contains(y) implies next.to_set().contains(y) by {
                    if y == items@[i as int]@ {
                        assert(next[i as int] == y);
                    } else {
                        let k = choose|k: int| 0 <= k < prev.len() && prev[k] == y;
                        assert(next[k] == y);
                    }
                }
            }
        }
        i += 1;
    }
    assert(items@.take(i as int) =~= items@);
    proof {
        lemma_sorted_list_is(string_views(r@));
    }
    r
}

} // verus!
