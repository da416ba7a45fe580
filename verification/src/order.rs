//! The order of strings (`str`'s `Ord`: code point by code point, a prefix first), stable
//! sorting by such keys, and sorted sets of strings.

use crate::text::{chars_of, strings_v};
use vstd::prelude::*;

verus! {

broadcast use vstd::string::group_string_axioms;

/// `a` sorts before `b`: at the first difference its character is lower, or it is a proper
/// prefix of `b`.
pub open spec fn lex_lt(a: Seq<char>, b: Seq<char>) -> bool
    decreases a.len(),
{
    if a.len() == 0 {
        b.len() > 0
    } else if b.len() == 0 {
        false
    } else if (a[0] as int) < (b[0] as int) {
        true
    } else if a[0] == b[0] {
        lex_lt(a.drop_first(), b.drop_first())
    } else {
        false
    }
}

pub proof fn lemma_lex_irreflexive(a: Seq<char>)
    ensures
        !lex_lt(a, a),
    decreases a.len(),
{
    if a.len() > 0 {
        lemma_lex_irreflexive(a.drop_first());
    }
}

pub proof fn lemma_lex_asym(a: Seq<char>, b: Seq<char>)
    ensures
        !(lex_lt(a, b) && lex_lt(b, a)),
    decreases a.len(),
{
    if a.len() > 0 && b.len() > 0 && a[0] == b[0] {
        lemma_lex_asym(a.drop_first(), b.drop_first());
    }
}

pub proof fn lemma_lex_trans(a: Seq<char>, b: Seq<char>, c: Seq<char>)
    requires
        lex_lt(a, b),
        lex_lt(b, c),
    ensures
        lex_lt(a, c),
    decreases a.len(),
{
    if a.len() > 0 && b.len() > 0 && c.len() > 0 && a[0] == b[0] && b[0] == c[0] {
        lemma_lex_trans(a.drop_first(), b.drop_first(), c.drop_first());
    }
}

pub proof fn lemma_lex_total(a: Seq<char>, b: Seq<char>)
    requires
        a != b,
    ensures
        lex_lt(a, b) || lex_lt(b, a),
    decreases a.len(),
{
    if a.len() > 0 && b.len() > 0 {
        if a[0] == b[0] {
            if a.drop_first() == b.drop_first() {
                assert(a =~= seq![a[0]] + a.drop_first());
                assert(b =~= seq![b[0]] + b.drop_first());
            }
            lemma_lex_total(a.drop_first(), b.drop_first());
        } else {
            assert((a[0] as int) != (b[0] as int));
        }
    } else if a.len() == 0 && b.len() == 0 {
        assert(a =~= b);
    }
}

/// Whether `a` sorts before `b`.
pub fn lex_less(a: &Vec<char>, b: &Vec<char>) -> (r: bool)
    ensures
        r == lex_lt(a@, b@),
{
    let mut i: usize = 0;
    proof {
        assert(a@.skip(0) =~= a@);
        assert(b@.skip(0) =~= b@);
    }
    while i < a.len() && i < b.len()
        invariant
            i <= a@.len(),
            i <= b@.len(),
            lex_lt(a@, b@) == lex_lt(a@.skip(i as int), b@.skip(i as int)),
        decreases a@.len() - i,
    {
        proof {
            assert(a@.skip(i as int).drop_first() =~= a@.skip(i as int + 1));
            assert(b@.skip(i as int).drop_first() =~= b@.skip(i as int + 1));
            assert(a@.skip(i as int)[0] == a@[i as int]);
            assert(b@.skip(i as int)[0] == b@[i as int]);
        }
        if a[i] < b[i] {
            return true;
        }
        if a[i] != b[i] {
            return false;
        }
        i += 1;
    }
    i == a.len() && i < b.len()
}

/// `a` sorts before `b`, as strings.
pub fn str_less(a: &str, b: &str) -> (r: bool)
    ensures
        r == lex_lt(a@, b@),
{
    lex_less(&chars_of(a), &chars_of(b))
}

// ---------- stable sorting by key ----------

/// Entry `(ka, ia)` goes before `(kb, ib)`: a lower key, or the same key and an earlier place.
pub open spec fn key_before(ka: Seq<char>, ia: int, kb: Seq<char>, ib: int) -> bool {
    lex_lt(ka, kb) || (ka == kb && ia < ib)
}

/// `p` lists `0..n`, each once.
pub open spec fn is_perm(p: Seq<int>, n: nat) -> bool {
    &&& p.len() == n
    &&& forall|k: int| 0 <= k < n ==> 0 <= #[trigger] p[k] < n
    &&& forall|a: int, b: int| 0 <= a < b < n ==> p[a] != p[b]
}

/// `p` orders the places by key, keeping the order of places with equal keys.
pub open spec fn stably_sorted(keys: Seq<Seq<char>>, p: Seq<int>) -> bool {
    forall|a: int, b: int| 0 <= a < b < p.len() ==> key_before(keys[p[a]], p[a], keys[p[b]], p[b])
}

/// `r` is `items` sorted stably by `keys`.
pub open spec fn sorted_by_keys<T>(items: Seq<T>, keys: Seq<Seq<char>>, r: Seq<T>) -> bool {
    exists|p: Seq<int>| is_perm(p, items.len()) && stably_sorted(keys, p)
        && r.len() == items.len()
        && forall|k: int| 0 <= k < r.len() ==> #[trigger] r[k] == items[p[k]]
}

proof fn lemma_key_before_trans(ka: Seq<char>, ia: int, kb: Seq<char>, ib: int, kc: Seq<char>, ic: int)
    requires
        key_before(ka, ia, kb, ib),
        key_before(kb, ib, kc, ic),
    ensures
        key_before(ka, ia, kc, ic),
{
    if lex_lt(ka, kb) && lex_lt(kb, kc) {
        lemma_lex_trans(ka, kb, kc);
    }
}

/// `items` sorted stably by `keys` (one key per item).
pub fn sort_by_keys<T>(items: Vec<T>, keys: &Vec<Vec<char>>) -> (r: Vec<T>)
    requires
        keys@.len() == items@.len(),
    ensures
        sorted_by_keys(items@, keys@.map_values(|k: Vec<char>| k@), r@),
{
    let ghost ks = keys@.map_values(|k: Vec<char>| k@);
    let ghost all = items@;
    let n = items.len();
    let mut rest = items;
    let mut out: Vec<T> = Vec::new();
    let mut places: Vec<usize> = Vec::new();
    let mut i: usize = 0;
    while rest.len() > 0
        invariant
            n == all.len(),
            ks == keys@.map_values(|k: Vec<char>| k@),
            keys@.len() == n,
            rest@.len() + i == n,
            rest@ == all.skip(i as int),
            out@.len() == i,
            places@.len() == i,
            forall|k: int| 0 <= k < i ==> #[trigger] places@[k] < i,
            forall|a: int, b: int| 0 <= a < b < i ==> places@[a] != places@[b],
            forall|a: int, b: int| 0 <= a < b < i ==> key_before(ks[places@[a] as int], places@[a] as int, ks[places@[b] as int], places@[b] as int),
            forall|k: int| 0 <= k < i ==> #[trigger] out@[k] == all[places@[k] as int],
        decreases rest@.len(),
    {
        let item = rest.remove(0);
        proof {
            assert(rest@ =~= all.skip(i as int + 1));
            assert(item == all[i as int]);
        }
        let key = &keys[i];
        proof {
            assert(ks[i as int] == keys@[i as int]@);
        }
        // the place after every entry whose key is not above this one's
        let mut pos: usize = 0;
        let mut stop = false;
        while pos < places.len() && !stop
            invariant
                pos <= places@.len(),
                places@.len() == i,
                i < n,
                keys@.len() == n,
                ks == keys@.map_values(|k: Vec<char>| k@),
                key@ == ks[i as int],
                forall|k: int| 0 <= k < i ==> #[trigger] places@[k] < i,
                forall|a: int, b: int| 0 <= a < b < i ==> key_before(ks[places@[a] as int], places@[a] as int, ks[places@[b] as int], places@[b] as int),
                forall|k: int| 0 <= k < pos ==> !lex_lt(ks[i as int], #[trigger] ks[places@[k] as int]),
                stop ==> pos < places@.len() && lex_lt(ks[i as int], ks[places@[pos as int] as int]),
            decreases places@.len() - pos, (if stop { 0int } else { 1int }),
        {
            let j = places[pos];
            proof {
                assert(ks[j as int] == keys@[j as int]@);
            }
            if lex_less(key, &keys[j]) {
                stop = true;
            } else {
                pos += 1;
            }
        }
        let ghost p0 = places@;
        let ghost o0 = out@;
        out.insert(pos, item);
        places.insert(pos, i);
        proof {
            assert forall|k: int| 0 <= k < i + 1 implies #[trigger] places@[k] < i + 1 by {
                if k < pos { assert(places@[k] == p0[k]); } else if k > pos { assert(places@[k] == p0[k - 1]); }
            }
            assert forall|a: int, b: int| 0 <= a < b < i + 1 implies places@[a] != places@[b] by {
                if a < pos && b < pos {
                } else if a < pos && b == pos {
                    assert(p0[a] < i);
                } else if a < pos {
                    assert(places@[b] == p0[b - 1]);
                } else if a == pos {
                    assert(places@[b] == p0[b - 1]);
                    assert(p0[b - 1] < i);
                } else {
                    assert(places@[a] == p0[a - 1] && places@[b] == p0[b - 1]);
                }
            }
            assert forall|a: int, b: int| 0 <= a < b < i + 1 implies key_before(ks[places@[a] as int], places@[a] as int, ks[places@[b] as int], places@[b] as int) by {
                let ki = ks[i as int];
                if a < pos && b < pos {
                    assert(places@[a] == p0[a] && places@[b] == p0[b]);
                } else if a < pos && b == pos {
                    let kp = ks[p0[a] as int];
                    assert(!lex_lt(ki, kp));
                    assert(p0[a] < i);
                    if kp != ki {
                        lemma_lex_total(kp, ki);
                    }
                } else if a < pos {
                    assert(places@[a] == p0[a] && places@[b] == p0[b - 1]);
                } else if a == pos {
                    assert(places@[b] == p0[b - 1]);
                    let kq = ks[p0[pos as int] as int];
                    assert(lex_lt(ki, kq));
                    if b - 1 > pos {
                        lemma_key_before_trans(ki, i as int, kq, p0[pos as int] as int, ks[p0[b - 1] as int], p0[b - 1] as int);
                    }
                } else {
                    assert(places@[a] == p0[a - 1] && places@[b] == p0[b - 1]);
                }
            }
            assert forall|k: int| 0 <= k < i + 1 implies #[trigger] out@[k] == all[places@[k] as int] by {
                if k < pos {
                    assert(out@[k] == o0[k] && places@[k] == p0[k]);
                } else if k > pos {
                    assert(out@[k] == o0[k - 1] && places@[k] == p0[k - 1]);
                }
            }
        }
        i += 1;
    }
    proof {
        let p = places@.map_values(|x: usize| x as int);
        assert(is_perm(p, all.len()));
        assert(stably_sorted(ks, p));
        assert(forall|k: int| 0 <= k < out@.len() ==> #[trigger] out@[k] == all[p[k]]);
    }
    out
}

// ---------- sorted sets of strings ----------

/// Each string sorts strictly before the next (so none repeats).
pub open spec fn strictly_sorted(s: Seq<Seq<char>>) -> bool {
    forall|a: int, b: int| 0 <= a < b < s.len() ==> lex_lt(s[a], s[b])
}

/// The strings, sorted, each once (`sort` then `dedup`).
pub fn sort_dedup(v: &Vec<String>) -> (r: Vec<String>)
    ensures
        strictly_sorted(strings_v(r@)),
        strings_v(r@).to_set() == strings_v(v@).to_set(),
{
    let mut out: Vec<String> = Vec::new();
    let mut i: usize = 0;
    while i < v.len()
        invariant
            i <= v@.len(),
            strictly_sorted(strings_v(out@)),
            strings_v(out@).to_set() == strings_v(v@.take(i as int)).to_set(),
        decreases v@.len() - i,
    {
        let s = &v[i];
        let ghost o0 = strings_v(out@);
        let sc = chars_of(s.as_str());
        let mut pos: usize = 0;
        let mut dup = false;
        let mut stop = false;
        while pos < out.len() && !stop
            invariant
                pos <= out@.len(),
                o0 == strings_v(out@),
                sc@ == s@,
                strictly_sorted(o0),
                forall|k: int| 0 <= k < pos ==> lex_lt(#[trigger] o0[k], s@),
                stop ==> pos < o0.len() && !lex_lt(o0[pos as int], s@),
                dup ==> stop && o0[pos as int] == s@,
                stop && !dup ==> lex_lt(s@, o0[pos as int]),
            decreases out@.len() - pos, (if stop { 0int } else { 1int }),
        {
            let oc = chars_of(out[pos].as_str());
            proof {
                assert(o0[pos as int] == out@[pos as int]@);
            }
            if lex_less(&oc, &sc) {
                pos += 1;
            } else {
                stop = true;
                if !lex_less(&sc, &oc) {
                    proof {
                        if o0[pos as int] != s@ {
                            lemma_lex_total(o0[pos as int], s@);
                        }
                    }
                    dup = true;
                }
            }
        }
        proof {
            assert(strings_v(v@.take(i as int + 1)) =~= strings_v(v@.take(i as int)).push(s@));
            assert(strings_v(v@.take(i as int + 1)).to_set() =~= strings_v(v@.take(i as int)).to_set().insert(s@)) by {
                strings_v(v@.take(i as int)).lemma_push_to_set_commute(s@);
            }
        }
        if !dup {
            out.insert(pos, s.clone());
            proof {
                let o1 = strings_v(out@);
                assert(o1 =~= o0.insert(pos as int, s@));
                assert forall|a: int, b: int| 0 <= a < b < o1.len() implies lex_lt(o1[a], o1[b]) by {
                    if a < pos && b < pos {
                    } else if a < pos && b == pos {
                    } else if a < pos {
                        assert(o1[b] == o0[b - 1]);
                        if a < b - 1 {
                        }
                    } else if a == pos {
                        assert(o1[b] == o0[b - 1]);
                        if b - 1 > pos {
                            lemma_lex_trans(s@, o0[pos as int], o0[b - 1]);
                        }
                    } else {
                        assert(o1[a] == o0[a - 1] && o1[b] == o0[b - 1]);
                    }
                }
                assert(o1.to_set() =~= o0.to_set().insert(s@)) by {
                    assert forall|x: Seq<char>| o1.to_set().contains(x) <==> o0.to_set().insert(s@).contains(x) by {
                        if o1.contains(x) {
                            let k = choose|k: int| 0 <= k < o1.len() && o1[k] == x;
                            if k < pos { assert(o0[k] == x); } else if k > pos { assert(o0[k - 1] == x); }
                        }
                        if o0.contains(x) {
                            let k = choose|k: int| 0 <= k < o0.len() && o0[k] == x;
                            if k < pos { assert(o1[k] == x); } else { assert(o1[k + 1] == x); }
                        }
                        if x == s@ {
                            assert(o1[pos as int] == x);
                        }
                    }
                }
            }
        } else {
            proof {
                assert(o0.contains(s@)) by {
                    assert(o0[pos as int] == s@);
                }
                assert(o0.to_set().insert(s@) =~= o0.to_set());
            }
        }
        i += 1;
    }
    proof {
        assert(v@.take(v@.len() as int) =~= v@);
    }
    out
}

// ---------- pairs of strings ----------

/// Pairs in order: by the first string, then the second (a derived `Ord` on two strings).
pub open spec fn pair_lt(a: (Seq<char>, Seq<char>), b: (Seq<char>, Seq<char>)) -> bool {
    lex_lt(a.0, b.0) || (a.0 == b.0 && lex_lt(a.1, b.1))
}

pub proof fn lemma_pair_trans(a: (Seq<char>, Seq<char>), b: (Seq<char>, Seq<char>), c: (Seq<char>, Seq<char>))
    requires
        pair_lt(a, b),
        pair_lt(b, c),
    ensures
        pair_lt(a, c),
{
    if lex_lt(a.0, b.0) && lex_lt(b.0, c.0) {
        lemma_lex_trans(a.0, b.0, c.0);
    } else if a.0 == b.0 && b.0 == c.0 {
        if lex_lt(a.1, b.1) && lex_lt(b.1, c.1) {
            lemma_lex_trans(a.1, b.1, c.1);
        }
    }
}

pub proof fn lemma_pair_total(a: (Seq<char>, Seq<char>), b: (Seq<char>, Seq<char>))
    requires
        a != b,
    ensures
        pair_lt(a, b) || pair_lt(b, a),
{
    if a.0 != b.0 {
        lemma_lex_total(a.0, b.0);
    } else {
        lemma_lex_total(a.1, b.1);
    }
}

pub open spec fn pairs_v(v: Seq<(String, String)>) -> Seq<(Seq<char>, Seq<char>)> {
    v.map_values(|p: (String, String)| (p.0@, p.1@))
}

/// Each pair sorts strictly before the next.
pub open spec fn pairs_sorted(s: Seq<(Seq<char>, Seq<char>)>) -> bool {
    forall|a: int, b: int| 0 <= a < b < s.len() ==> pair_lt(s[a], s[b])
}

fn pair_less(a: &(Vec<char>, Vec<char>), b: &(Vec<char>, Vec<char>)) -> (r: bool)
    ensures
        r == pair_lt((a.0@, a.1@), (b.0@, b.1@)),
{
    if lex_less(&a.0, &b.0) {
        return true;
    }
    if lex_less(&b.0, &a.0) {
        proof {
            lemma_lex_asym(a.0@, b.0@);
        }
        return false;
    }
    proof {
        if a.0@ != b.0@ {
            lemma_lex_total(a.0@, b.0@);
        }
    }
    lex_less(&a.1, &b.1)
}

/// The pairs, sorted, each once.
pub fn sort_dedup_pairs(v: &Vec<(String, String)>) -> (r: Vec<(String, String)>)
    ensures
        pairs_sorted(pairs_v(r@)),
        pairs_v(r@).to_set() == pairs_v(v@).to_set(),
{
    let mut out: Vec<(String, String)> = Vec::new();
    let mut i: usize = 0;
    while i < v.len()
        invariant
            i <= v@.len(),
            pairs_sorted(pairs_v(out@)),
            pairs_v(out@).to_set() == pairs_v(v@.take(i as int)).to_set(),
        decreases v@.len() - i,
    {
        let e = &v[i];
        let ghost x = (e.0@, e.1@);
        let ghost o0 = pairs_v(out@);
        let ec = (chars_of(e.0.as_str()), chars_of(e.1.as_str()));
        let mut pos: usize = 0;
        let mut dup = false;
        let mut stop = false;
        while pos < out.len() && !stop
            invariant
                pos <= out@.len(),
                o0 == pairs_v(out@),
                (ec.0@, ec.1@) == x,
                pairs_sorted(o0),
                forall|k: int| 0 <= k < pos ==> pair_lt(#[trigger] o0[k], x),
                stop ==> pos < o0.len() && !pair_lt(o0[pos as int], x),
                dup ==> stop && o0[pos as int] == x,
                stop && !dup ==> pair_lt(x, o0[pos as int]),
            decreases out@.len() - pos, (if stop { 0int } else { 1int }),
        {
            let oc = (chars_of(out[pos].0.as_str()), chars_of(out[pos].1.as_str()));
            proof {
                assert(o0[pos as int] == (out@[pos as int].0@, out@[pos as int].1@));
            }
            if pair_less(&oc, &ec) {
                pos += 1;
            } else {
                stop = true;
                if !pair_less(&ec, &oc) {
                    proof {
                        if o0[pos as int] != x {
                            lemma_pair_total(o0[pos as int], x);
                        }
                    }
                    dup = true;
                }
            }
        }
        proof {
            assert(pairs_v(v@.take(i as int + 1)) =~= pairs_v(v@.take(i as int)).push(x));
            pairs_v(v@.take(i as int)).lemma_push_to_set_commute(x);
        }
        if !dup {
            out.insert(pos, (e.0.clone(), e.1.clone()));
            proof {
                let o1 = pairs_v(out@);
                assert(o1 =~= o0.insert(pos as int, x));
                assert forall|a: int, b: int| 0 <= a < b < o1.len() implies pair_lt(o1[a], o1[b]) by {
                    if a < pos && b < pos {
                    } else if a < pos && b == pos {
                    } else if a < pos {
                        assert(o1[b] == o0[b - 1]);
                    } else if a == pos {
                        assert(o1[b] == o0[b - 1]);
                        if b - 1 > pos {
                            lemma_pair_trans(x, o0[pos as int], o0[b - 1]);
                        }
                    } else {
                        assert(o1[a] == o0[a - 1] && o1[b] == o0[b - 1]);
                    }
                }
                assert(o1.to_set() =~= o0.to_set().insert(x)) by {
                    assert forall|y: (Seq<char>, Seq<char>)| o1.to_set().contains(y) <==> o0.to_set().insert(x).contains(y) by {
                        if o1.contains(y) {
                            let k = choose|k: int| 0 <= k < o1.len() && o1[k] == y;
                            if k < pos { assert(o0[k] == y); } else if k > pos { assert(o0[k - 1] == y); }
                        }
                        if o0.contains(y) {
                            let k = choose|k: int| 0 <= k < o0.len() && o0[k] == y;
                            if k < pos { assert(o1[k] == y); } else { assert(o1[k + 1] == y); }
                        }
                        if y == x {
                            assert(o1[pos as int] == y);
                        }
                    }
                }
            }
        } else {
            proof {
                assert(o0.contains(x)) by {
                    assert(o0[pos as int] == x);
                }
                assert(o0.to_set().insert(x) =~= o0.to_set());
            }
        }
        i += 1;
    }
    proof {
        assert(v@.take(v@.len() as int) =~= v@);
    }
    out
}

} // verus!
