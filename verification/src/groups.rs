//! Groups of requirements: creating, (un)assigning members, editing; the per-group rollups
//! and the repo-wide inventory, with the group titles each requirement derives from them.

use crate::classify::{current_changed, dup_ids, logged, lemma_candidate_valid};
use crate::id::{spec_slugify, spec_valid_slug, slugify, Id, Key};
use crate::model::{Group, History, HistoryValue, QstStatus, Question, ReqRev, Status};
use crate::ops::{all_taken, candidate, id_v, ids_v, next_free_slug, opt_v, GroupFinding};
use crate::order::{lex_lt, pair_lt, pairs_sorted, pairs_v, sort_by_keys, sort_dedup, sort_dedup_pairs, sorted_by_keys, strictly_sorted, str_less};
use crate::text::{chars_of, copy_str, push_char, push_str, strings_v};
use vstd::prelude::*;

verus! {

broadcast use vstd::string::group_string_axioms;

pub type IdView = (Seq<char>, Seq<char>, u32);

pub open spec fn no_group_message(slug: Seq<char>) -> Seq<char> {
    "no group `"@ + slug + seq!['`']
}

fn no_group(slug: &str) -> (m: String)
    ensures
        m@ == no_group_message(slug@),
{
    let mut m = copy_str("no group `");
    push_str(&mut m, slug);
    push_char(&mut m, '`');
    proof {
        reveal_strlit("no group `");
        assert(m@ =~= no_group_message(slug@));
    }
    m
}

/// A trimmed description, or none when blank.
pub open spec fn description_of(d: Option<&str>) -> Option<Seq<char>> {
    match d {
        Some(s) => if crate::blocks::trim_ws(s@).len() == 0 { None } else { Some(crate::blocks::trim_ws(s@)) },
        None => None,
    }
}

fn description_exec(d: Option<&str>) -> (r: Option<String>)
    ensures
        opt_v(r) == description_of(d),
{
    match d {
        Some(s) => {
            let t = crate::blocks::trim_chars(&chars_of(s));
            if t.len() == 0 { None } else { Some(crate::text::string_of(t.as_slice())) }
        },
        None => None,
    }
}

// ---------- creating and editing ----------

/// A new group titled `title` (trimmed), with a slug made from the title and made free
/// against the group slugs `taken`, no members, and a `create` history entry.
pub fn create_group(title: &str, description: Option<&str>, taken: &Vec<String>, by: &str, now: i128) -> (r: Result<Group, String>)
    ensures
        crate::blocks::trim_ws(title@).len() == 0 ==> (r matches Err(m) && m@ == "group title is required"@),
        crate::blocks::trim_ws(title@).len() > 0 ==> (r matches Ok(g) && ({
            let base = spec_slugify(crate::blocks::trim_ws(title@), 32);
            &&& g.id.ty@ == "grp"@ && g.id.rev == 1
            &&& exists|i: nat| i >= 1 && all_taken(base, strings_v(taken@), i) && g.id.slug@ == #[trigger] candidate(base, i) && !strings_v(taken@).contains(g.id.slug@)
            &&& g.title@ == crate::blocks::trim_ws(title@)
            &&& opt_v(g.description) == description_of(description)
            &&& g.members@.len() == 0
            &&& g.history@.len() == 1
            &&& crate::ops::entry_head(g.history@[0]) == ("create"@, by@, now, None::<Seq<char>>)
            &&& g.history@[0].accepted_by is None && g.history@[0].from is None && g.history@[0].to is None
        })),
{
    let tc = crate::blocks::trim_chars(&chars_of(title));
    if tc.len() == 0 {
        proof {
            reveal_strlit("group title is required");
        }
        return Err(copy_str("group title is required"));
    }
    let t = crate::text::string_of(tc.as_slice());
    let base = slugify(t.as_str(), 32);
    let slug = next_free_slug(base.as_str(), taken);
    proof {
        let i = choose|i: nat| i >= 1 && all_taken(base@, strings_v(taken@), i) && slug@ == candidate(base@, i) && !strings_v(taken@).contains(slug@);
        lemma_candidate_valid(base@, i);
    }
    let mut history: Vec<History> = Vec::new();
    history.push(History::new_at(by, "create", now));
    proof {
        reveal_strlit("grp");
    }
    Ok(Group {
        id: Id { ty: copy_str("grp"), slug, rev: 1 },
        title: t,
        description: description_exec(description),
        members: Vec::new(),
        history,
    })
}

/// Edit the current rev of group `slug`: a non-blank title replaces the title (trimmed); a
/// given description replaces the description (trimmed, none when blank).
pub fn update_group(revs: &mut Vec<Group>, slug: &str, title: Option<&str>, description: Option<Option<&str>>, by: &str, now: i128) -> (r: Result<(), String>)
    ensures
        old(revs)@.len() == 0 ==> (r matches Err(m) && m@ == no_group_message(slug@) && final(revs)@ == old(revs)@),
        old(revs)@.len() > 0 ==> (r is Ok && current_changed(old(revs)@, final(revs)@) && ({
            let g0 = old(revs)@.last();
            let g = final(revs)@.last();
            &&& g.id == g0.id && g.members == g0.members
            &&& g.title@ == (match title {
                Some(t) => if crate::blocks::trim_ws(t@).len() > 0 { crate::blocks::trim_ws(t@) } else { g0.title@ },
                None => g0.title@,
            })
            &&& opt_v(g.description) == (match description { Some(d) => description_of(d), None => opt_v(g0.description) })
            &&& logged(g0.history@, g.history@, "update"@, by@, now, None)
        })),
{
    if revs.len() == 0 {
        return Err(no_group(slug));
    }
    let ghost r0 = revs@;
    let mut g = revs.pop().unwrap();
    let ghost g0 = g;
    if let Some(t) = title {
        let tt = crate::blocks::trim_chars(&chars_of(t));
        if tt.len() > 0 {
            g.title = crate::text::string_of(tt.as_slice());
        }
    }
    if let Some(d) = description {
        g.description = description_exec(d);
    }
    g.history.push(History::new_at(by, "update", now));
    proof {
        assert(g.history@.drop_last() =~= g0.history@);
    }
    revs.push(g);
    proof {
        assert(revs@.drop_last() =~= r0.drop_last());
    }
    Ok(())
}

// ---------- membership ----------

/// The first member with slug `slug`.
pub open spec fn first_with_slug(ms: Seq<IdView>, slug: Seq<char>) -> Option<int>
    decreases ms.len(),
{
    if ms.len() == 0 {
        None
    } else {
        match first_with_slug(ms.drop_last(), slug) {
            Some(j) => Some(j),
            None => if ms.last().1 == slug { Some(ms.len() - 1) } else { None },
        }
    }
}

/// Assigning one requirement (its current rev `x`): it replaces the member with its slug, or
/// joins at the end.
pub open spec fn assign_one(ms: Seq<IdView>, x: IdView) -> Seq<IdView> {
    match first_with_slug(ms, x.1) {
        Some(j) => ms.update(j, x),
        None => ms.push(x),
    }
}

/// Assigning several, in order.
pub open spec fn assign_all(ms: Seq<IdView>, xs: Seq<IdView>) -> Seq<IdView>
    decreases xs.len(),
{
    if xs.len() == 0 { ms } else { assign_one(assign_all(ms, xs.drop_last()), xs.last()) }
}

/// `x`'s slug leads to `x`: the first member with that slug is `x`.
pub open spec fn leads(ms: Seq<IdView>, x: IdView) -> bool {
    first_with_slug(ms, x.1) matches Some(j) && ms[j] == x
}

/// Requirements with the same slug are at the same rev.
pub open spec fn one_rev_per_slug(xs: Seq<IdView>) -> bool {
    forall|a: int, b: int| 0 <= a < xs.len() && 0 <= b < xs.len() && (#[trigger] xs[a]).1 == (#[trigger] xs[b]).1 ==> xs[a] == xs[b]
}

proof fn lemma_first_with_slug(ms: Seq<IdView>, slug: Seq<char>)
    ensures
        first_with_slug(ms, slug) matches Some(j) ==> 0 <= j < ms.len() && ms[j].1 == slug
            && forall|k: int| 0 <= k < j ==> (#[trigger] ms[k]).1 != slug,
        first_with_slug(ms, slug) is None ==> forall|k: int| 0 <= k < ms.len() ==> (#[trigger] ms[k]).1 != slug,
    decreases ms.len(),
{
    if ms.len() > 0 {
        let p = ms.drop_last();
        lemma_first_with_slug(p, slug);
        match first_with_slug(p, slug) {
            Some(j) => {
                assert(p[j] == ms[j]);
                assert forall|k: int| 0 <= k < j implies (#[trigger] ms[k]).1 != slug by {
                    assert(p[k] == ms[k]);
                }
            },
            None => {
                assert forall|k: int| 0 <= k < ms.len() - 1 implies (#[trigger] ms[k]).1 != slug by {
                    assert(p[k] == ms[k]);
                }
            },
        }
    }
}

/// The first member with slug `slug` is at `j`.
proof fn lemma_first_at(ms: Seq<IdView>, slug: Seq<char>, j: int)
    requires
        0 <= j < ms.len(),
        ms[j].1 == slug,
        forall|k: int| 0 <= k < j ==> (#[trigger] ms[k]).1 != slug,
    ensures
        first_with_slug(ms, slug) == Some(j),
{
    lemma_first_with_slug(ms, slug);
}

/// No member has slug `slug`.
proof fn lemma_first_none(ms: Seq<IdView>, slug: Seq<char>)
    requires
        forall|k: int| 0 <= k < ms.len() ==> (#[trigger] ms[k]).1 != slug,
    ensures
        first_with_slug(ms, slug) is None,
{
    lemma_first_with_slug(ms, slug);
}

/// After assigning `x`, its slug leads to it; members with other slugs stay where they were.
proof fn lemma_assign_one(ms: Seq<IdView>, x: IdView)
    ensures
        leads(assign_one(ms, x), x),
        assign_one(ms, x).len() >= ms.len(),
        forall|k: int| 0 <= k < ms.len() && (#[trigger] ms[k]).1 != x.1 ==> assign_one(ms, x)[k] == ms[k],
        forall|s: Seq<char>| s != x.1 ==> #[trigger] first_with_slug(assign_one(ms, x), s) == first_with_slug(ms, s),
{
    let r = assign_one(ms, x);
    lemma_first_with_slug(ms, x.1);
    match first_with_slug(ms, x.1) {
        Some(j) => {
            assert forall|k: int| 0 <= k < j implies (#[trigger] r[k]).1 != x.1 by {
                assert(r[k] == ms[k]);
            }
            lemma_first_at(r, x.1, j);
        },
        None => {
            let n = ms.len() as int;
            assert forall|k: int| 0 <= k < n implies (#[trigger] r[k]).1 != x.1 by {
                assert(r[k] == ms[k]);
            }
            lemma_first_at(r, x.1, n);
        },
    }
    assert forall|s: Seq<char>| s != x.1 implies #[trigger] first_with_slug(r, s) == first_with_slug(ms, s) by {
        lemma_first_with_slug(ms, s);
        assert forall|k: int| 0 <= k < r.len() implies ((#[trigger] r[k]).1 == s <==> (k < ms.len() && ms[k].1 == s)) by {
            if k < ms.len() && ms[k].1 != x.1 {
                assert(r[k] == ms[k]);
            }
        }
        match first_with_slug(ms, s) {
            Some(a) => {
                assert forall|k: int| 0 <= k < a implies (#[trigger] r[k]).1 != s by {
                    assert(ms[k].1 != s);
                }
                lemma_first_at(r, s, a);
            },
            None => {
                assert forall|k: int| 0 <= k < r.len() implies (#[trigger] r[k]).1 != s by {
                    if k < ms.len() { assert(ms[k].1 != s); }
                }
                lemma_first_none(r, s);
            },
        }
    }
}

pub(crate) proof fn lemma_assign_all_leads(ms: Seq<IdView>, xs: Seq<IdView>)
    requires
        one_rev_per_slug(xs),
    ensures
        forall|k: int| 0 <= k < xs.len() ==> leads(assign_all(ms, xs), #[trigger] xs[k]),
    decreases xs.len(),
{
    if xs.len() > 0 {
        let p = xs.drop_last();
        assert(one_rev_per_slug(p)) by {
            assert forall|a: int, b: int| 0 <= a < p.len() && 0 <= b < p.len() && (#[trigger] p[a]).1 == (#[trigger] p[b]).1 implies p[a] == p[b] by {
                assert(p[a] == xs[a] && p[b] == xs[b]);
            }
        }
        lemma_assign_all_leads(ms, p);
        let s0 = assign_all(ms, p);
        let x = xs.last();
        lemma_assign_one(s0, x);
        assert forall|k: int| 0 <= k < xs.len() implies leads(assign_all(ms, xs), #[trigger] xs[k]) by {
            if k == xs.len() - 1 {
            } else if xs[k].1 == x.1 {
                assert(xs[k] == xs[xs.len() - 1]);
            } else {
                assert(p[k] == xs[k]);
                assert(leads(s0, p[k]));
                lemma_first_with_slug(s0, p[k].1);
                let j = first_with_slug(s0, p[k].1)->Some_0;
                assert(s0[j] == p[k]);
                assert(first_with_slug(assign_one(s0, x), xs[k].1) == first_with_slug(s0, xs[k].1));
                assert(assign_one(s0, x)[j] == s0[j]);
            }
        }
    }
}

proof fn lemma_assign_all_noop(ms: Seq<IdView>, xs: Seq<IdView>)
    requires
        forall|k: int| 0 <= k < xs.len() ==> leads(ms, #[trigger] xs[k]),
    ensures
        assign_all(ms, xs) == ms,
    decreases xs.len(),
{
    if xs.len() > 0 {
        let p = xs.drop_last();
        assert forall|k: int| 0 <= k < p.len() implies leads(ms, #[trigger] p[k]) by {
            assert(p[k] == xs[k]);
        }
        lemma_assign_all_noop(ms, p);
        let x = xs[xs.len() - 1];
        assert(leads(ms, x));
        lemma_first_with_slug(ms, x.1);
        let j = first_with_slug(ms, x.1)->Some_0;
        assert(ms[j] == x);
        assert(ms.update(j, x) =~= ms);
    }
}

/// Assigning is idempotent: assigning the same requirements (at their current revs) again
/// leaves the members as they are.
pub proof fn law_assign_idempotent(ms: Seq<IdView>, xs: Seq<IdView>)
    requires
        one_rev_per_slug(xs),
    ensures
        assign_all(assign_all(ms, xs), xs) == assign_all(ms, xs),
{
    lemma_assign_all_leads(ms, xs);
    lemma_assign_all_noop(assign_all(ms, xs), xs);
}

/// `h` records the members going from `from` to `to`.
pub open spec fn members_change(h: History, by: Seq<char>, now: i128, from: Seq<IdView>, to: Seq<IdView>) -> bool {
    &&& crate::ops::entry_head(h) == ("members"@, by, now, None::<Seq<char>>)
    &&& h.accepted_by is None
    &&& h.from matches Some(HistoryValue::Ids(a)) && ids_v(a@) == from
    &&& h.to matches Some(HistoryValue::Ids(b)) && ids_v(b@) == to
}

/// The group's members became `to` (from its members `from`): a history entry records it
/// when they differ; otherwise nothing is written.
pub open spec fn members_set(g0: Group, g: Group, to: Seq<IdView>, by: Seq<char>, now: i128) -> bool {
    &&& g.id == g0.id && g.title == g0.title && g.description == g0.description
    &&& ids_v(g.members@) == to
    &&& if to == ids_v(g0.members@) {
        g.history == g0.history
    } else {
        &&& g.history@.len() == g0.history@.len() + 1
        &&& g.history@.drop_last() == g0.history@
        &&& members_change(g.history@.last(), by, now, ids_v(g0.members@), to)
    }
}

/// The first of `slugs` with no current requirement (`current[k]` is the current rev of the
/// requirement `slugs[k]` names).
pub open spec fn first_unknown(slugs: Seq<String>, current: Seq<Option<Id>>) -> Option<int>
    decreases slugs.len(),
{
    if slugs.len() == 0 {
        None
    } else {
        match first_unknown(slugs.drop_last(), current) {
            Some(i) => Some(i),
            None => if slugs.len() - 1 >= current.len() || current[slugs.len() - 1] is None { Some(slugs.len() - 1) } else { None },
        }
    }
}

proof fn lemma_first_unknown_none(slugs: Seq<String>, current: Seq<Option<Id>>)
    requires
        first_unknown(slugs, current) is None,
    ensures
        forall|j: int| 0 <= j < slugs.len() ==> j < current.len() && (#[trigger] current[j]) is Some,
    decreases slugs.len(),
{
    if slugs.len() > 0 {
        lemma_first_unknown_none(slugs.drop_last(), current);
    }
}

proof fn lemma_first_unknown_stays(slugs: Seq<String>, current: Seq<Option<Id>>, k: int)
    requires
        0 < k <= slugs.len(),
        first_unknown(slugs.take(k), current) is Some,
    ensures
        first_unknown(slugs, current) == first_unknown(slugs.take(k), current),
    decreases slugs.len() - k,
{
    if k < slugs.len() {
        assert(slugs.take(k + 1).drop_last() =~= slugs.take(k));
        lemma_first_unknown_stays(slugs, current, k + 1);
    } else {
        assert(slugs.take(k) =~= slugs);
    }
}

/// The current revs of the first `k` slugs.
pub open spec fn current_ids(current: Seq<Option<Id>>, k: int) -> Seq<IdView>
    decreases k,
{
    if k <= 0 { Seq::empty() } else { current_ids(current, k - 1).push(id_v(current[k - 1]->Some_0)) }
}

fn ids_differ(a: &Vec<Id>, b: &Vec<Id>) -> (r: bool)
    ensures
        r == (ids_v(a@) != ids_v(b@)),
{
    if a.len() != b.len() {
        proof {
            assert(ids_v(a@).len() != ids_v(b@).len());
        }
        return true;
    }
    let mut i: usize = 0;
    while i < a.len()
        invariant
            i <= a@.len(),
            a@.len() == b@.len(),
            forall|k: int| 0 <= k < i ==> id_v(#[trigger] a@[k]) == id_v(b@[k]),
        decreases a@.len() - i,
    {
        if !a[i].same(&b[i]) {
            proof {
                assert(ids_v(a@)[i as int] != ids_v(b@)[i as int]);
            }
            return true;
        }
        i += 1;
    }
    proof {
        assert(ids_v(a@) =~= ids_v(b@)) by {
            assert forall|k: int| 0 <= k < ids_v(a@).len() implies ids_v(a@)[k] == ids_v(b@)[k] by {
                assert(id_v(a@[k]) == id_v(b@[k]));
            }
        }
    }
    false
}

/// Add requirements (by slug, at their current revs: `current[k]` for `req_slugs[k]`) to the
/// group `group_slug`: one already a member moves to its current rev. Idempotent.
pub fn assign_group(revs: &mut Vec<Group>, group_slug: &str, req_slugs: &Vec<String>, current: &Vec<Option<Id>>, by: &str, now: i128) -> (r: Result<(), String>)
    ensures
        old(revs)@.len() == 0 ==> (r matches Err(m) && m@ == no_group_message(group_slug@)),
        old(revs)@.len() > 0 ==> (first_unknown(req_slugs@, current@) matches Some(i) ==> (r matches Err(m)
            && m@ == crate::ops::no_requirement_message(req_slugs@[i]@))),
        r is Err ==> final(revs)@ == old(revs)@,
        old(revs)@.len() > 0 && first_unknown(req_slugs@, current@) is None ==> (r is Ok && current_changed(old(revs)@, final(revs)@)
            && members_set(old(revs)@.last(), final(revs)@.last(),
                assign_all(ids_v(old(revs)@.last().members@), current_ids(current@, req_slugs@.len() as int)), by@, now)),
{
    if revs.len() == 0 {
        return Err(no_group(group_slug));
    }
    let mut k: usize = 0;
    while k < req_slugs.len()
        invariant
            k <= req_slugs@.len(),
            revs@ == old(revs)@,
            revs@.len() > 0,
            first_unknown(req_slugs@.take(k as int), current@) is None,
        decreases req_slugs@.len() - k,
    {
        proof {
            assert(req_slugs@.take(k as int + 1).drop_last() =~= req_slugs@.take(k as int));
        }
        if k >= current.len() || current[k].is_none() {
            proof {
                assert(first_unknown(req_slugs@.take(k as int + 1), current@) == Some(k as int));
                lemma_first_unknown_stays(req_slugs@, current@, k as int + 1);
            }
            let mut m = copy_str("no requirement `");
            push_str(&mut m, req_slugs[k].as_str());
            push_char(&mut m, '`');
            proof {
                reveal_strlit("no requirement `");
                assert(m@ =~= crate::ops::no_requirement_message(req_slugs@[k as int]@));
            }
            return Err(m);
        }
        k += 1;
    }
    proof {
        assert(req_slugs@.take(req_slugs@.len() as int) =~= req_slugs@);
        lemma_first_unknown_none(req_slugs@, current@);
    }
    let ghost r0 = revs@;
    let mut g = revs.pop().unwrap();
    let ghost g0 = g;
    let before = dup_ids(&g.members);
    let mut i: usize = 0;
    while i < req_slugs.len()
        invariant
            i <= req_slugs@.len(),
            g == (Group { members: g.members, ..g0 }),
            forall|j: int| 0 <= j < req_slugs@.len() ==> j < current@.len() && (#[trigger] current@[j]) is Some,
            ids_v(g.members@) == assign_all(ids_v(g0.members@), current_ids(current@, i as int)),
        decreases req_slugs@.len() - i,
    {
        let c = current[i].as_ref().unwrap();
        let ghost m0 = ids_v(g.members@);
        let mut j: usize = 0;
        let mut found = false;
        while j < g.members.len() && !found
            invariant
                j <= g.members@.len(),
                m0 == ids_v(g.members@),
                forall|k: int| 0 <= k < j ==> (#[trigger] g.members@[k]).slug@ != c.slug@,
                found ==> j < g.members@.len() && g.members@[j as int].slug@ == c.slug@,
            decreases g.members@.len() - j, (if found { 0int } else { 1int }),
        {
            if crate::text::same(g.members[j].slug.as_str(), c.slug.as_str()) {
                found = true;
            } else {
                j += 1;
            }
        }
        proof {
            let xs = current_ids(current@, i as int + 1);
            assert(xs.drop_last() =~= current_ids(current@, i as int));
            assert(xs.last() == id_v(*c));
            if found {
                assert forall|k: int| 0 <= k < j implies (#[trigger] m0[k]).1 != c.slug@ by {
                    assert(m0[k] == id_v(g.members@[k]));
                }
                assert(m0[j as int] == id_v(g.members@[j as int]));
                lemma_first_at(m0, c.slug@, j as int);
            } else {
                assert forall|k: int| 0 <= k < m0.len() implies (#[trigger] m0[k]).1 != c.slug@ by {
                    assert(m0[k] == id_v(g.members@[k]));
                }
                lemma_first_none(m0, c.slug@);
            }
        }
        if found {
            g.members.set(j, c.dup());
            proof {
                assert(ids_v(g.members@) =~= m0.update(j as int, id_v(*c)));
            }
        } else {
            g.members.push(c.dup());
            proof {
                assert(ids_v(g.members@) =~= m0.push(id_v(*c)));
            }
        }
        i += 1;
    }
    if ids_differ(&g.members, &before) {
        let after = dup_ids(&g.members);
        g.history.push(History::new_at(by, "members", now).change(Some(HistoryValue::Ids(before)), Some(HistoryValue::Ids(after))));
        proof {
            assert(g.history@.drop_last() =~= g0.history@);
        }
    }
    revs.push(g);
    proof {
        assert(revs@.drop_last() =~= r0.drop_last());
    }
    Ok(())
}

/// The members whose slug is not among `slugs`.
pub open spec fn without_slugs(ms: Seq<IdView>, slugs: Seq<Seq<char>>) -> Seq<IdView> {
    ms.filter(|m: IdView| !slugs.contains(m.1))
}

/// Remove the requirements `req_slugs` from the group `group_slug`.
pub fn unassign_group(revs: &mut Vec<Group>, group_slug: &str, req_slugs: &Vec<String>, by: &str, now: i128) -> (r: Result<(), String>)
    ensures
        old(revs)@.len() == 0 ==> (r matches Err(m) && m@ == no_group_message(group_slug@) && final(revs)@ == old(revs)@),
        old(revs)@.len() > 0 ==> (r is Ok && current_changed(old(revs)@, final(revs)@)
            && members_set(old(revs)@.last(), final(revs)@.last(), without_slugs(ids_v(old(revs)@.last().members@), strings_v(req_slugs@)), by@, now)),
{
    if revs.len() == 0 {
        return Err(no_group(group_slug));
    }
    let ghost r0 = revs@;
    let mut g = revs.pop().unwrap();
    let ghost g0 = g;
    let ghost f = |m: IdView| !strings_v(req_slugs@).contains(m.1);
    let before = dup_ids(&g.members);
    let mut kept: Vec<Id> = Vec::new();
    let mut i: usize = 0;
    while i < before.len()
        invariant
            i <= before@.len(),
            before@ == g0.members@,
            f == (|m: IdView| !strings_v(req_slugs@).contains(m.1)),
            ids_v(kept@) == ids_v(before@.take(i as int)).filter(f),
        decreases before@.len() - i,
    {
        proof {
            assert(ids_v(before@.take(i as int + 1)) =~= ids_v(before@.take(i as int)).push(id_v(before@[i as int])));
            ids_v(before@.take(i as int)).lemma_filter_push(id_v(before@[i as int]), f);
        }
        if !crate::ops::in_strings(req_slugs, before[i].slug.as_str()) {
            let ghost k0 = kept@;
            kept.push(before[i].dup());
            proof {
                assert(ids_v(kept@) =~= ids_v(k0).push(id_v(before@[i as int])));
            }
        }
        i += 1;
    }
    proof {
        assert(before@.take(before@.len() as int) =~= before@);
    }
    g.members = kept;
    if ids_differ(&g.members, &before) {
        let after = dup_ids(&g.members);
        g.history.push(History::new_at(by, "members", now).change(Some(HistoryValue::Ids(before)), Some(HistoryValue::Ids(after))));
        proof {
            assert(g.history@.drop_last() =~= g0.history@);
        }
    }
    revs.push(g);
    proof {
        assert(revs@.drop_last() =~= r0.drop_last());
    }
    Ok(())
}

// ---------- rollups ----------

/// The current rev a member slug resolves to: the last of `reqs` with that slug.
pub open spec fn req_for(reqs: Seq<ReqRev>, slug: Seq<char>) -> Option<int>
    decreases reqs.len(),
{
    if reqs.len() == 0 {
        None
    } else if reqs.last().id.slug@ == slug {
        Some(reqs.len() - 1)
    } else {
        req_for(reqs.drop_last(), slug)
    }
}

/// An open question about the requirement `slug`.
pub open spec fn asks_about(q: Question, slug: Seq<char>) -> bool {
    q.status == QstStatus::Open && exists|i: int| 0 <= i < q.affects@.len() && (#[trigger] q.affects@[i]).slug@ == slug
}

/// How many open questions are about the requirement `slug`.
pub open spec fn open_about(qsts: Seq<Question>, slug: Seq<char>) -> nat
    decreases qsts.len(),
{
    if qsts.len() == 0 {
        0
    } else {
        open_about(qsts.drop_last(), slug) + if asks_about(qsts.last(), slug) { 1nat } else { 0nat }
    }
}

/// The place of a status in name order.
pub open spec fn status_slot(s: Status) -> int {
    match s {
        Status::Assumed => 0,
        Status::Confirmed => 1,
        Status::Disputed => 2,
        Status::Extracted => 3,
        Status::Retired => 4,
    }
}

/// What a group's members add up to: member counts per status (in name order), open
/// questions about them, their anchors, and the integrity findings.
pub struct Tally {
    pub counts: Seq<nat>,
    pub open: nat,
    pub anchors: nat,
    pub findings: Seq<(IdView, Seq<char>)>,
}

pub open spec fn tally(ms: Seq<Id>, reqs: Seq<ReqRev>, qsts: Seq<Question>) -> Tally
    decreases ms.len(),
{
    if ms.len() == 0 {
        Tally { counts: seq![0nat, 0nat, 0nat, 0nat, 0nat], open: 0, anchors: 0, findings: Seq::empty() }
    } else {
        let t = tally(ms.drop_last(), reqs, qsts);
        let m = ms.last();
        match req_for(reqs, m.slug@) {
            None => Tally { findings: t.findings.push((id_v(m), "missing"@)), ..t },
            Some(i) => {
                let r = reqs[i];
                let k = status_slot(r.status);
                Tally {
                    counts: t.counts.update(k, t.counts[k] + 1),
                    open: t.open + open_about(qsts, r.id.slug@),
                    anchors: t.anchors + r.anchors@.len(),
                    findings: if r.status == Status::Retired {
                        t.findings.push((id_v(m), "retired"@))
                    } else if r.id.rev != m.rev {
                        t.findings.push((id_v(m), "stale-rev"@))
                    } else {
                        t.findings
                    },
                }
            },
        }
    }
}

proof fn lemma_tally_grows(ms: Seq<Id>, reqs: Seq<ReqRev>, qsts: Seq<Question>, k: int)
    requires
        0 <= k <= ms.len(),
    ensures
        tally(ms.take(k), reqs, qsts).open <= tally(ms, reqs, qsts).open,
        tally(ms.take(k), reqs, qsts).anchors <= tally(ms, reqs, qsts).anchors,
        tally(ms, reqs, qsts).counts.len() == 5,
        forall|j: int| 0 <= j < 5 ==> #[trigger] tally(ms, reqs, qsts).counts[j] <= ms.len(),
    decreases ms.len(),
{
    if ms.len() > 0 {
        if k == ms.len() {
            assert(ms.take(k) =~= ms);
        }
        let p = ms.drop_last();
        if k < ms.len() {
            assert(ms.take(k) =~= p.take(k));
            lemma_tally_grows(p, reqs, qsts, k);
        } else {
            lemma_tally_grows(p, reqs, qsts, 0);
        }
    }
}

/// The statuses with members, in name order, with their counts.
pub open spec fn by_status(counts: Seq<nat>, k: int) -> Seq<(Seq<char>, nat)>
    decreases k,
{
    if k <= 0 {
        Seq::empty()
    } else {
        let p = by_status(counts, k - 1);
        if counts[k - 1] > 0 {
            p.push((crate::model::status_name(crate::coverage::statuses_by_name()[k - 1]), counts[k - 1]))
        } else {
            p
        }
    }
}

/// One group's rollup.
#[derive(Debug, Clone)]
pub struct GroupRollup {
    pub group: Group,
    /// Member count per status name, statuses with members only, in name order.
    pub members_by_status: Vec<(String, usize)>,
    pub open_questions: usize,
    pub anchors: usize,
    /// Members that no longer resolve, are retired, or are pinned at an older rev.
    pub findings: Vec<GroupFinding>,
}

/// `r` is the rollup of `g` over the current requirements and questions.
pub open spec fn rollup_is(r: GroupRollup, g: Group, reqs: Seq<ReqRev>, qsts: Seq<Question>) -> bool {
    let t = tally(g.members@, reqs, qsts);
    &&& r.group == g
    &&& r.members_by_status@.map_values(|e: (String, usize)| (e.0@, e.1 as nat)) == by_status(t.counts, 5)
    &&& r.open_questions == t.open
    &&& r.anchors == t.anchors
    &&& r.findings@.map_values(|f: GroupFinding| (id_v(f.member), f.kind@)) == t.findings
}

/// The rollup's totals fit in a `usize`.
pub open spec fn tally_fits(g: Group, reqs: Seq<ReqRev>, qsts: Seq<Question>) -> bool {
    tally(g.members@, reqs, qsts).open <= usize::MAX && tally(g.members@, reqs, qsts).anchors <= usize::MAX
}

fn find_req_for(reqs: &Vec<ReqRev>, slug: &str) -> (r: Option<usize>)
    ensures
        match r {
            Some(i) => i < reqs@.len() && req_for(reqs@, slug@) == Some(i as int),
            None => req_for(reqs@, slug@) is None,
        },
{
    let mut i: usize = reqs.len();
    proof {
        assert(reqs@.take(reqs@.len() as int) =~= reqs@);
    }
    while i > 0
        invariant
            i <= reqs@.len(),
            req_for(reqs@, slug@) == req_for(reqs@.take(i as int), slug@),
        decreases i,
    {
        proof {
            assert(reqs@.take(i as int).drop_last() =~= reqs@.take(i as int - 1));
            assert(reqs@.take(i as int).last() == reqs@[i as int - 1]);
        }
        if crate::text::same(reqs[i - 1].id.slug.as_str(), slug) {
            return Some(i - 1);
        }
        i -= 1;
    }
    None
}

fn count_open_about(qsts: &Vec<Question>, slug: &str) -> (n: usize)
    ensures
        n == open_about(qsts@, slug@),
{
    let mut n: usize = 0;
    let mut i: usize = 0;
    while i < qsts.len()
        invariant
            i <= qsts@.len(),
            n == open_about(qsts@.take(i as int), slug@),
            n <= i,
        decreases qsts@.len() - i,
    {
        proof {
            assert(qsts@.take(i as int + 1).drop_last() =~= qsts@.take(i as int));
            assert(qsts@.take(i as int + 1).last() == qsts@[i as int]);
        }
        let q = &qsts[i];
        if q.status == QstStatus::Open {
            let mut hit = false;
            let mut j: usize = 0;
            while j < q.affects.len()
                invariant
                    j <= q.affects@.len(),
                    hit == exists|k: int| 0 <= k < j && (#[trigger] q.affects@[k]).slug@ == slug@,
                decreases q.affects@.len() - j,
            {
                if crate::text::same(q.affects[j].slug.as_str(), slug) {
                    hit = true;
                }
                j += 1;
            }
            if hit {
                n += 1;
            }
        }
        i += 1;
    }
    proof {
        assert(qsts@.take(qsts@.len() as int) =~= qsts@);
    }
    n
}

fn finding(m: &Id, kind: &str) -> (f: GroupFinding)
    ensures
        id_v(f.member) == id_v(*m),
        f.kind@ == kind@,
{
    GroupFinding { member: m.dup(), kind: copy_str(kind) }
}

/// The rollup of one group: member counts per status, open questions about its members,
/// their anchors, and members that are missing, retired or at a stale rev.
pub fn group_rollup(g: Group, reqs: &Vec<ReqRev>, qsts: &Vec<Question>) -> (r: GroupRollup)
    requires
        tally_fits(g, reqs@, qsts@),
    ensures
        rollup_is(r, g, reqs@, qsts@),
{
    let ghost ms = g.members@;
    let mut counts: Vec<usize> = vec![0, 0, 0, 0, 0];
    let mut open: usize = 0;
    let mut anchors: usize = 0;
    let mut findings: Vec<GroupFinding> = Vec::new();
    let mut i: usize = 0;
    proof {
        assert(ms.take(0) =~= Seq::<Id>::empty());
        assert(counts@.map_values(|c: usize| c as nat) =~= seq![0nat, 0nat, 0nat, 0nat, 0nat]);
    }
    while i < g.members.len()
        invariant
            i <= ms.len(),
            ms == g.members@,
            tally_fits(g, reqs@, qsts@),
            counts@.len() == 5,
            counts@.map_values(|c: usize| c as nat) == tally(ms.take(i as int), reqs@, qsts@).counts,
            open == tally(ms.take(i as int), reqs@, qsts@).open,
            anchors == tally(ms.take(i as int), reqs@, qsts@).anchors,
            findings@.map_values(|f: GroupFinding| (id_v(f.member), f.kind@)) == tally(ms.take(i as int), reqs@, qsts@).findings,
        decreases ms.len() - i,
    {
        let m = &g.members[i];
        let ghost t0 = tally(ms.take(i as int), reqs@, qsts@);
        let ghost f0 = findings@;
        proof {
            assert(ms.take(i as int + 1).drop_last() =~= ms.take(i as int));
            assert(ms.take(i as int + 1).last() == *m);
            lemma_tally_grows(ms, reqs@, qsts@, i as int + 1);
            lemma_tally_grows(ms.take(i as int), reqs@, qsts@, 0);
            lemma_tally_grows(ms.take(i as int + 1), reqs@, qsts@, 0);
            assert(ms.take(i as int + 1).len() == i + 1);
        }
        match find_req_for(reqs, m.slug.as_str()) {
            None => {
                findings.push(finding(m, "missing"));
                proof {
                    reveal_strlit("missing");
                }
            },
            Some(k) => {
                let rq = &reqs[k];
                let slot: usize = match rq.status {
                    Status::Assumed => 0,
                    Status::Confirmed => 1,
                    Status::Disputed => 2,
                    Status::Extracted => 3,
                    Status::Retired => 4,
                };
                proof {
                    assert(counts@[slot as int] as nat == t0.counts[slot as int]);
                    assert(t0.counts[slot as int] <= i);
                }
                let c = counts[slot];
                counts.set(slot, c + 1);
                open = open + count_open_about(qsts, rq.id.slug.as_str());
                anchors = anchors + rq.anchors.len();
                if rq.status == Status::Retired {
                    findings.push(finding(m, "retired"));
                    proof {
                        reveal_strlit("retired");
                    }
                } else if rq.id.rev != m.rev {
                    findings.push(finding(m, "stale-rev"));
                    proof {
                        reveal_strlit("stale-rev");
                    }
                }
            },
        }
        proof {
            let t1 = tally(ms.take(i as int + 1), reqs@, qsts@);
            assert(counts@.map_values(|c: usize| c as nat) =~= t1.counts);
            assert(findings@.map_values(|f: GroupFinding| (id_v(f.member), f.kind@)) =~= t1.findings) by {
                assert(f0.map_values(|f: GroupFinding| (id_v(f.member), f.kind@)) == t0.findings);
            }
        }
        i += 1;
    }
    proof {
        assert(ms.take(ms.len() as int) =~= ms);
    }
    let names = ["assumed", "confirmed", "disputed", "extracted", "retired"];
    let mut by: Vec<(String, usize)> = Vec::new();
    let mut k: usize = 0;
    let ghost t = tally(ms, reqs@, qsts@);
    proof {
        reveal_strlit("assumed");
        reveal_strlit("confirmed");
        reveal_strlit("disputed");
        reveal_strlit("extracted");
        reveal_strlit("retired");
    }
    while k < 5
        invariant
            k <= 5,
            counts@.len() == 5,
            counts@.map_values(|c: usize| c as nat) == t.counts,
            forall|j: int| 0 <= j < 5 ==> (#[trigger] names@[j])@ == crate::model::status_name(crate::coverage::statuses_by_name()[j]),
            by@.map_values(|e: (String, usize)| (e.0@, e.1 as nat)) == by_status(t.counts, k as int),
        decreases 5 - k,
    {
        let ghost b0 = by@;
        proof {
            assert(counts@[k as int] as nat == t.counts[k as int]);
        }
        if counts[k] > 0 {
            by.push((copy_str(names[k]), counts[k]));
            proof {
                assert(by@.map_values(|e: (String, usize)| (e.0@, e.1 as nat)) =~= b0.map_values(|e: (String, usize)| (e.0@, e.1 as nat)).push((names@[k as int]@, counts@[k as int] as nat)));
            }
        }
        k += 1;
    }
    GroupRollup { group: g, members_by_status: by, open_questions: open, anchors, findings }
}

/// `to_lowercase` of `str`: the string with every character mapped to its lowercase form.
pub uninterp spec fn unicode_lower(s: Seq<char>) -> Seq<char>;

/// `str::to_lowercase`. Claimed: the result is a function of the argument alone, named
/// `unicode_lower` (std's Unicode case mapping is not stated here).
#[verifier::external_body]
fn to_lowercase(s: &str) -> (r: String)
    ensures
        r@ == unicode_lower(s@),
{
    s.to_lowercase()
}

/// The rollup of every group, ordered by lowercased title (groups with equal lowercased titles
/// keep their order).
pub fn group_rollups(groups: Vec<Group>, reqs: &Vec<ReqRev>, qsts: &Vec<Question>) -> (r: Vec<GroupRollup>)
    requires
        forall|k: int| 0 <= k < groups@.len() ==> tally_fits(#[trigger] groups@[k], reqs@, qsts@),
    ensures
        r@.len() == groups@.len(),
        exists|p: Seq<int>| crate::order::is_perm(p, groups@.len())
            && crate::order::stably_sorted(groups@.map_values(|g: Group| unicode_lower(g.title@)), p)
            && forall|k: int| 0 <= k < r@.len() ==> rollup_is(#[trigger] r@[k], groups@[p[k]], reqs@, qsts@),
{
    let ghost gs = groups@;
    let mut rest = groups;
    let mut items: Vec<GroupRollup> = Vec::new();
    let mut keys: Vec<Vec<char>> = Vec::new();
    let mut i: usize = 0;
    let n = rest.len();
    while rest.len() > 0
        invariant
            n == gs.len(),
            rest@.len() + i == n,
            rest@ == gs.skip(i as int),
            forall|k: int| 0 <= k < gs.len() ==> tally_fits(#[trigger] gs[k], reqs@, qsts@),
            items@.len() == i,
            keys@.len() == i,
            forall|k: int| 0 <= k < i ==> rollup_is(#[trigger] items@[k], gs[k], reqs@, qsts@),
            forall|k: int| 0 <= k < i ==> (#[trigger] keys@[k])@ == unicode_lower(gs[k].title@),
        decreases rest@.len(),
    {
        let g = rest.remove(0);
        proof {
            assert(rest@ =~= gs.skip(i as int + 1));
            assert(g == gs[i as int]);
        }
        let key = chars_of(to_lowercase(g.title.as_str()).as_str());
        items.push(group_rollup(g, reqs, qsts));
        keys.push(key);
        i += 1;
    }
    let ghost its = items@;
    let r = sort_by_keys(items, &keys);
    proof {
        let ks = keys@.map_values(|k: Vec<char>| k@);
        assert(ks =~= gs.map_values(|g: Group| unicode_lower(g.title@)));
        let p = choose|p: Seq<int>| crate::order::is_perm(p, its.len()) && crate::order::stably_sorted(ks, p)
            && r@.len() == its.len() && forall|k: int| 0 <= k < r@.len() ==> #[trigger] r@[k] == its[p[k]];
        assert forall|k: int| 0 <= k < r@.len() implies rollup_is(#[trigger] r@[k], gs[p[k]], reqs@, qsts@) by {
            assert(r@[k] == its[p[k]]);
        }
    }
    r
}

// ---------- group titles per requirement ----------

pub type KeyView = (Seq<char>, Seq<char>);

/// `g` has a member with type and slug `k`.
pub open spec fn has_member(g: Group, k: KeyView) -> bool {
    exists|i: int| 0 <= i < g.members@.len() && (#[trigger] g.members@[i]).ty@ == k.0 && g.members@[i].slug@ == k.1
}

/// Every requirement key some group has as a member.
pub open spec fn member_keys(groups: Seq<Group>) -> Set<KeyView> {
    Set::new(|k: KeyView| exists|j: int| 0 <= j < groups.len() && has_member(#[trigger] groups[j], k))
}

/// The titles of the groups that have `k` as a member.
pub open spec fn titles_for(groups: Seq<Group>, k: KeyView) -> Set<Seq<char>> {
    Set::new(|t: Seq<char>| exists|j: int| 0 <= j < groups.len() && has_member(#[trigger] groups[j], k) && groups[j].title@ == t)
}

pub open spec fn key_v(k: Key) -> KeyView {
    (k.ty@, k.slug@)
}

/// `titles` lists the titles of the groups that have `k` as a member, sorted, each once.
pub open spec fn titles_of(titles: Seq<String>, groups: Seq<Group>, k: KeyView) -> bool {
    strictly_sorted(strings_v(titles)) && strings_v(titles).to_set() == titles_for(groups, k)
}

/// One of the first `i` members of `g` has type and slug `x`.
pub open spec fn key_in_members(g: Group, i: int, x: KeyView) -> bool {
    exists|ii: int| 0 <= ii < i && (#[trigger] g.members@[ii]).ty@ == x.0 && g.members@[ii].slug@ == x.1
}

/// One of the first `j` groups has member `x`.
pub open spec fn key_in_groups(groups: Seq<Group>, j: int, x: KeyView) -> bool {
    exists|jj: int| 0 <= jj < j && has_member(#[trigger] groups[jj], x)
}

/// One of the first `j` groups has member `k` and title `t`.
pub open spec fn title_in_groups(groups: Seq<Group>, j: int, k: KeyView, t: Seq<char>) -> bool {
    exists|jj: int| 0 <= jj < j && has_member(#[trigger] groups[jj], k) && groups[jj].title@ == t
}

fn has_member_exec(g: &Group, ty: &str, slug: &str) -> (b: bool)
    ensures
        b == has_member(*g, (ty@, slug@)),
{
    let mut i: usize = 0;
    while i < g.members.len()
        invariant
            i <= g.members@.len(),
            forall|k: int| 0 <= k < i ==> !((#[trigger] g.members@[k]).ty@ == ty@ && g.members@[k].slug@ == slug@),
        decreases g.members@.len() - i,
    {
        if crate::text::same(g.members[i].ty.as_str(), ty) && crate::text::same(g.members[i].slug.as_str(), slug) {
            return true;
        }
        i += 1;
    }
    false
}

/// The titles of the groups with member `(ty, slug)`, sorted, each once.
fn titles_exec(groups: &Vec<Group>, ty: &str, slug: &str) -> (r: Vec<String>)
    ensures
        titles_of(r@, groups@, (ty@, slug@)),
{
    let ghost k = (ty@, slug@);
    let mut ts: Vec<String> = Vec::new();
    let mut j: usize = 0;
    while j < groups.len()
        invariant
            j <= groups@.len(),
            k == (ty@, slug@),
            forall|t: Seq<char>| strings_v(ts@).contains(t) <==> title_in_groups(groups@, j as int, k, t),
        decreases groups@.len() - j,
    {
        let hit = has_member_exec(&groups[j], ty, slug);
        let ghost t0 = strings_v(ts@);
        if hit {
            ts.push(groups[j].title.clone());
        }
        proof {
            let g = groups@[j as int];
            assert(hit == has_member(g, k));
            if hit {
                assert(strings_v(ts@) =~= t0.push(g.title@));
            } else {
                assert(strings_v(ts@) =~= t0);
            }
            assert forall|t: Seq<char>| strings_v(ts@).contains(t) <==> title_in_groups(groups@, j + 1, k, t) by {
                if strings_v(ts@).contains(t) {
                    let x = choose|x: int| 0 <= x < strings_v(ts@).len() && strings_v(ts@)[x] == t;
                    if x < t0.len() {
                        assert(t0[x] == t);
                        assert(t0.contains(t));
                        let jj = choose|jj: int| 0 <= jj < j && has_member(#[trigger] groups@[jj], k) && groups@[jj].title@ == t;
                        assert(has_member(groups@[jj], k));
                    } else {
                        assert(has_member(groups@[j as int], k) && groups@[j as int].title@ == t);
                    }
                }
                if title_in_groups(groups@, j + 1, k, t) {
                    let jj = choose|jj: int| 0 <= jj < j + 1 && has_member(#[trigger] groups@[jj], k) && groups@[jj].title@ == t;
                    if jj < j {
                        assert(has_member(groups@[jj], k));
                        assert(t0.contains(t));
                        let x = choose|x: int| 0 <= x < t0.len() && t0[x] == t;
                        assert(strings_v(ts@)[x] == t);
                    } else {
                        assert(jj == j);
                        assert(hit);
                        assert(strings_v(ts@)[t0.len() as int] == t);
                    }
                }
            }
        }
        j += 1;
    }
    let r = sort_dedup(&ts);
    proof {
        assert(strings_v(ts@).to_set() =~= titles_for(groups@, k));
    }
    r
}

/// Group titles per requirement key, derived from the groups' members (membership lives in
/// groups only): keys in order, each with its group titles sorted, each once.
pub fn groups_by_req(groups: &Vec<Group>) -> (r: Vec<(Key, Vec<String>)>)
    ensures
        pairs_sorted(r@.map_values(|e: (Key, Vec<String>)| key_v(e.0))),
        r@.map_values(|e: (Key, Vec<String>)| key_v(e.0)).to_set() == member_keys(groups@),
        forall|k: int| 0 <= k < r@.len() ==> titles_of((#[trigger] r@[k]).1@, groups@, key_v(r@[k].0)),
{
    let mut all: Vec<(String, String)> = Vec::new();
    let mut j: usize = 0;
    while j < groups.len()
        invariant
            j <= groups@.len(),
            forall|x: KeyView| #[trigger] pairs_v(all@).contains(x) <==> key_in_groups(groups@, j as int, x),
        decreases groups@.len() - j,
    {
        let g = &groups[j];
        let ghost a0 = pairs_v(all@);
        let mut i: usize = 0;
        while i < g.members.len()
            invariant
                i <= g.members@.len(),
                j < groups@.len(),
                *g == groups@[j as int],
                a0.len() <= pairs_v(all@).len(),
                pairs_v(all@).take(a0.len() as int) == a0,
                forall|x: KeyView| #[trigger] pairs_v(all@).contains(x) <==> (a0.contains(x) || key_in_members(*g, i as int, x)),
            decreases g.members@.len() - i,
        {
            let ghost b0 = pairs_v(all@);
            all.push((g.members[i].ty.clone(), g.members[i].slug.clone()));
            proof {
                let y = (g.members@[i as int].ty@, g.members@[i as int].slug@);
                assert(pairs_v(all@) =~= b0.push(y));
                assert(pairs_v(all@).take(a0.len() as int) =~= b0.take(a0.len() as int));
                assert forall|x: KeyView| #[trigger] pairs_v(all@).contains(x) <==> (a0.contains(x) || key_in_members(*g, i + 1, x)) by {
                    if pairs_v(all@).contains(x) {
                        let z = choose|z: int| 0 <= z < pairs_v(all@).len() && pairs_v(all@)[z] == x;
                        if z < b0.len() {
                            assert(b0[z] == x);
                            assert(b0.contains(x));
                            if !a0.contains(x) {
                                let ii = choose|ii: int| 0 <= ii < i && (#[trigger] g.members@[ii]).ty@ == x.0 && g.members@[ii].slug@ == x.1;
                                assert(g.members@[ii].ty@ == x.0);
                            }
                        } else {
                            assert(x == y);
                            assert(g.members@[i as int].ty@ == x.0 && g.members@[i as int].slug@ == x.1);
                        }
                    }
                    if a0.contains(x) {
                        let z = choose|z: int| 0 <= z < a0.len() && a0[z] == x;
                        assert(b0.take(a0.len() as int)[z] == x);
                        assert(pairs_v(all@)[z] == x);
                    }
                    if key_in_members(*g, i + 1, x) {
                        let ii = choose|ii: int| 0 <= ii < i + 1 && (#[trigger] g.members@[ii]).ty@ == x.0 && g.members@[ii].slug@ == x.1;
                        if ii < i {
                            assert(g.members@[ii].ty@ == x.0);
                            assert(b0.contains(x));
                            let z = choose|z: int| 0 <= z < b0.len() && b0[z] == x;
                            assert(pairs_v(all@)[z] == x);
                        } else {
                            assert(pairs_v(all@)[b0.len() as int] == x);
                        }
                    }
                }
            }
            i += 1;
        }
        proof {
            assert forall|x: KeyView| #[trigger] pairs_v(all@).contains(x) <==> key_in_groups(groups@, j + 1, x) by {
                if key_in_groups(groups@, j + 1, x) {
                    let jj = choose|jj: int| 0 <= jj < j + 1 && has_member(#[trigger] groups@[jj], x);
                    if jj == j {
                        let ii = choose|ii: int| 0 <= ii < g.members@.len() && (#[trigger] g.members@[ii]).ty@ == x.0 && g.members@[ii].slug@ == x.1;
                        assert(g.members@[ii].ty@ == x.0);
                    } else {
                        assert(has_member(groups@[jj], x));
                        assert(a0.contains(x));
                    }
                }
                if pairs_v(all@).contains(x) {
                    if a0.contains(x) {
                        let jj = choose|jj: int| 0 <= jj < j && has_member(#[trigger] groups@[jj], x);
                        assert(has_member(groups@[jj], x));
                    } else {
                        let ii = choose|ii: int| 0 <= ii < g.members@.len() && (#[trigger] g.members@[ii]).ty@ == x.0 && g.members@[ii].slug@ == x.1;
                        assert(g.members@[ii].ty@ == x.0);
                        assert(has_member(groups@[j as int], x));
                    }
                }
            }
        }
        j += 1;
    }
    let keys = sort_dedup_pairs(&all);
    proof {
        assert(pairs_v(all@).to_set() =~= member_keys(groups@));
    }
    let mut out: Vec<(Key, Vec<String>)> = Vec::new();
    let mut k: usize = 0;
    while k < keys.len()
        invariant
            k <= keys@.len(),
            out@.map_values(|e: (Key, Vec<String>)| key_v(e.0)) == pairs_v(keys@).take(k as int),
            forall|x: int| 0 <= x < out@.len() ==> titles_of((#[trigger] out@[x]).1@, groups@, key_v(out@[x].0)),
        decreases keys@.len() - k,
    {
        let ts = titles_exec(groups, keys[k].0.as_str(), keys[k].1.as_str());
        let ghost o0 = out@;
        out.push((Key { ty: keys[k].0.clone(), slug: keys[k].1.clone() }, ts));
        proof {
            assert(out@.map_values(|e: (Key, Vec<String>)| key_v(e.0)) =~= pairs_v(keys@).take(k as int + 1)) by {
                assert(out@.map_values(|e: (Key, Vec<String>)| key_v(e.0)) =~= o0.map_values(|e: (Key, Vec<String>)| key_v(e.0)).push(pairs_v(keys@)[k as int]));
            }
            assert forall|x: int| 0 <= x < out@.len() implies titles_of((#[trigger] out@[x]).1@, groups@, key_v(out@[x].0)) by {
                if x < o0.len() {
                    assert(out@[x] == o0[x]);
                }
            }
        }
        k += 1;
    }
    proof {
        assert(pairs_v(keys@).take(keys@.len() as int) =~= pairs_v(keys@));
    }
    out
}

// ---------- the inventory ----------

/// One requirement in the repo-wide inventory: its current rev, the titles of the groups it is
/// in, the docs it is anchored in, and the open questions about it.
#[derive(Debug, Clone)]
pub struct InventoryRow {
    pub req: ReqRev,
    pub groups: Vec<String>,
    pub docs: Vec<String>,
    pub open_questions: usize,
}

/// The docs the requirement is anchored in.
pub open spec fn anchor_docs(r: ReqRev) -> Set<Seq<char>> {
    Set::new(|d: Seq<char>| exists|i: int| 0 <= i < r.anchors@.len() && (#[trigger] r.anchors@[i]).doc@ == d)
}

/// `row` is the inventory row of `req`.
pub open spec fn row_is(row: InventoryRow, req: ReqRev, groups: Seq<Group>, qsts: Seq<Question>) -> bool {
    &&& row.req == req
    &&& titles_of(row.groups@, groups, (req.id.ty@, req.id.slug@))
    &&& strictly_sorted(strings_v(row.docs@))
    &&& strings_v(row.docs@).to_set() == anchor_docs(req)
    &&& row.open_questions == open_about(qsts, req.id.slug@)
}

fn docs_of(r: &ReqRev) -> (d: Vec<String>)
    ensures
        strictly_sorted(strings_v(d@)),
        strings_v(d@).to_set() == anchor_docs(*r),
{
    let mut all: Vec<String> = Vec::new();
    let mut i: usize = 0;
    while i < r.anchors.len()
        invariant
            i <= r.anchors@.len(),
            strings_v(all@) == r.anchors@.take(i as int).map_values(|a: crate::model::Anchor| a.doc@),
        decreases r.anchors@.len() - i,
    {
        let ghost a0 = strings_v(all@);
        all.push(r.anchors[i].doc.clone());
        proof {
            assert(strings_v(all@) =~= a0.push(r.anchors@[i as int].doc@));
            assert(r.anchors@.take(i as int + 1).map_values(|a: crate::model::Anchor| a.doc@)
                =~= r.anchors@.take(i as int).map_values(|a: crate::model::Anchor| a.doc@).push(r.anchors@[i as int].doc@));
        }
        i += 1;
    }
    let d = sort_dedup(&all);
    proof {
        assert(r.anchors@.take(r.anchors@.len() as int) =~= r.anchors@);
        assert(strings_v(all@).to_set() =~= anchor_docs(*r)) by {
            assert forall|x: Seq<char>| strings_v(all@).to_set().contains(x) <==> anchor_docs(*r).contains(x) by {
                if strings_v(all@).contains(x) {
                    let k = choose|k: int| 0 <= k < strings_v(all@).len() && strings_v(all@)[k] == x;
                    assert(r.anchors@[k].doc@ == x);
                }
                if anchor_docs(*r).contains(x) {
                    let k = choose|k: int| 0 <= k < r.anchors@.len() && (#[trigger] r.anchors@[k]).doc@ == x;
                    assert(strings_v(all@)[k] == x);
                }
            }
        }
    }
    d
}

/// The inventory: the current rev of every requirement with the titles of its groups, its
/// docs and its open questions, ordered by slug (equal slugs keep their order).
pub fn inventory(reqs: Vec<ReqRev>, groups: &Vec<Group>, qsts: &Vec<Question>) -> (r: Vec<InventoryRow>)
    ensures
        r@.len() == reqs@.len(),
        exists|p: Seq<int>| crate::order::is_perm(p, reqs@.len())
            && crate::order::stably_sorted(reqs@.map_values(|q: ReqRev| q.id.slug@), p)
            && forall|k: int| 0 <= k < r@.len() ==> row_is(#[trigger] r@[k], reqs@[p[k]], groups@, qsts@),
{
    let by_req = groups_by_req(groups);
    let ghost rs = reqs@;
    let mut rest = reqs;
    let mut rows: Vec<InventoryRow> = Vec::new();
    let mut keys: Vec<Vec<char>> = Vec::new();
    let mut i: usize = 0;
    let n = rest.len();
    while rest.len() > 0
        invariant
            n == rs.len(),
            rest@.len() + i == n,
            rest@ == rs.skip(i as int),
            pairs_sorted(by_req@.map_values(|e: (Key, Vec<String>)| key_v(e.0))),
            by_req@.map_values(|e: (Key, Vec<String>)| key_v(e.0)).to_set() == member_keys(groups@),
            forall|k: int| 0 <= k < by_req@.len() ==> titles_of((#[trigger] by_req@[k]).1@, groups@, key_v(by_req@[k].0)),
            rows@.len() == i,
            keys@.len() == i,
            forall|k: int| 0 <= k < i ==> row_is(#[trigger] rows@[k], rs[k], groups@, qsts@),
            forall|k: int| 0 <= k < i ==> (#[trigger] keys@[k])@ == rs[k].id.slug@,
        decreases rest@.len(),
    {
        let req = rest.remove(0);
        proof {
            assert(rest@ =~= rs.skip(i as int + 1));
            assert(req == rs[i as int]);
        }
        let ghost kv = (req.id.ty@, req.id.slug@);
        let mut found: Option<usize> = None;
        let mut e: usize = 0;
        while e < by_req.len() && found.is_none()
            invariant
                e <= by_req@.len(),
                forall|x: int| 0 <= x < e ==> key_v((#[trigger] by_req@[x]).0) != kv,
                found matches Some(f) ==> f < by_req@.len() && key_v(by_req@[f as int].0) == kv,
                kv == (req.id.ty@, req.id.slug@),
            decreases by_req@.len() - e, (if found is Some { 0int } else { 1int }),
        {
            if crate::text::same(by_req[e].0.ty.as_str(), req.id.ty.as_str()) && crate::text::same(by_req[e].0.slug.as_str(), req.id.slug.as_str()) {
                found = Some(e);
            } else {
                e += 1;
            }
        }
        let titles = match found {
            Some(f) => crate::text::copy_strings(&by_req[f].1),
            None => {
                proof {
                    let ks = by_req@.map_values(|e: (Key, Vec<String>)| key_v(e.0));
                    assert(!ks.contains(kv)) by {
                        if ks.contains(kv) {
                            let x = choose|x: int| 0 <= x < ks.len() && ks[x] == kv;
                            assert(key_v(by_req@[x].0) == kv);
                        }
                    }
                    assert(!member_keys(groups@).contains(kv));
                    assert(titles_for(groups@, kv) =~= Set::<Seq<char>>::empty()) by {
                        assert forall|t: Seq<char>| !titles_for(groups@, kv).contains(t) by {
                            if titles_for(groups@, kv).contains(t) {
                                let jj = choose|jj: int| 0 <= jj < groups@.len() && has_member(#[trigger] groups@[jj], kv) && groups@[jj].title@ == t;
                                assert(member_keys(groups@).contains(kv));
                            }
                        }
                    }
                    assert(strings_v(Seq::<String>::empty()).to_set() =~= Set::<Seq<char>>::empty());
                }
                Vec::new()
            },
        };
        let docs = docs_of(&req);
        let open = count_open_about(qsts, req.id.slug.as_str());
        let key = chars_of(req.id.slug.as_str());
        let ghost r0 = rows@;
        rows.push(InventoryRow { req, groups: titles, docs, open_questions: open });
        keys.push(key);
        proof {
            assert(rows@[i as int].req == rs[i as int]);
            assert forall|k: int| 0 <= k < i + 1 implies row_is(#[trigger] rows@[k], rs[k], groups@, qsts@) by {
                if k < i {
                    assert(rows@[k] == r0[k]);
                }
            }
        }
        i += 1;
    }
    let ghost its = rows@;
    let r = sort_by_keys(rows, &keys);
    proof {
        let ks = keys@.map_values(|k: Vec<char>| k@);
        assert(ks =~= rs.map_values(|q: ReqRev| q.id.slug@));
        let p = choose|p: Seq<int>| crate::order::is_perm(p, its.len()) && crate::order::stably_sorted(ks, p)
            && r@.len() == its.len() && forall|k: int| 0 <= k < r@.len() ==> #[trigger] r@[k] == its[p[k]];
        assert forall|k: int| 0 <= k < r@.len() implies row_is(#[trigger] r@[k], rs[p[k]], groups@, qsts@) by {
            assert(r@[k] == its[p[k]]);
        }
    }
    r
}

} // verus!
