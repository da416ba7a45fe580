//! Applying an accepted agent proposal: the object it describes is made by `agent`, and the
//! newest history entry of everything it touched records the user who accepted it.

use crate::blocks::trim_ws;
use crate::agent::{Proposal, ProposalStatus, Proposals, Proposed};
use crate::classify::{add_anchors, attach_req, attached, create_req, current_changed, free_slug_result, mark_non_normative, marked, req_kept, str_opt_v};
use crate::model::Marks;
use crate::groups::{assign_all, assign_group, create_group, leads};
use crate::id::{spec_slugify, spec_valid_slug, Id};
use crate::model::{Group, History, HistoryValue, Level, Pattern, QstStatus, Question, Reading, ReqRev, Status};
use crate::ops::{
    all_taken, anchors_on, anchors_v, attribute, candidate, find_file, find_group_by_title, first_file, first_missing, flag_question, entry_head, entry_heads,
    id_v, ids_v, no_requirement_message, opt_v, raise_refused, raised, reading_v, readings_of, title_match, NewQuestion, NewReq,
    accept_proposal, agent_mark_by, proposal_index, readings_fit, reading_key, record_acceptance, status_debug, ProposalAction,
};
use crate::groups::IdView;
use crate::text::{copy_str, push_char, push_str, strings_v};
use vstd::prelude::*;

verus! {

// ---------- attribution ----------

/// The newest entry of `h` is the agent's, accepted by `user`.
pub open spec fn stamped(h: Seq<History>, user: Seq<char>) -> bool {
    &&& h.len() > 0
    &&& h.last().by@ == "agent"@
    &&& opt_v(h.last().accepted_by) == Some(user)
}

// ---------- groups named by an accepted requirement proposal ----------

/// The slugs of `gs`, in order.
pub open spec fn group_slugs(gs: Seq<Group>) -> Seq<Seq<char>> {
    gs.map_values(|g: Group| g.id.slug@)
}

/// Some title of `titles` is blank and names no group of `groups`: no group can be found or
/// made for it.
pub open spec fn blank_unmatched(groups: Seq<Group>, titles: Seq<Seq<char>>) -> bool {
    exists|t: int| 0 <= t < titles.len() && trim_ws(titles[t]).len() == 0 && #[trigger] title_match(groups, titles[t]) is None
}

/// `g` is the group the agent made for `title` after the groups `before`, accepted by `user`:
/// the trimmed title, its slug the first free one made from it.
pub open spec fn group_created(g: Group, before: Seq<Group>, title: Seq<char>, user: Seq<char>, now: i128) -> bool {
    &&& group_made(g, before, title, now)
    &&& g.history@.len() >= 2
    &&& stamped(g.history@, user)
}

/// `g` is the group the agent made for `title` after the groups `before`: the trimmed title,
/// its slug the first free one made from it, a `create` history entry.
pub open spec fn group_made(g: Group, before: Seq<Group>, title: Seq<char>, now: i128) -> bool {
    let base = spec_slugify(trim_ws(title), 32);
    &&& g.id.ty@ == "grp"@ && g.id.rev == 1
    &&& exists|i: nat| i >= 1 && all_taken(base, group_slugs(before), i) && g.id.slug@ == #[trigger] candidate(base, i)
        && !group_slugs(before).contains(g.id.slug@)
    &&& g.title@ == trim_ws(title)
    &&& g.description is None
    &&& g.history@.len() >= 1
    &&& entry_head(g.history@[0]) == ("create"@, "agent"@, now, None::<Seq<char>>)
    &&& g.history@[0].accepted_by is None && g.history@[0].from is None && g.history@[0].to is None
}

/// `g1` is `g0` after the requirement `rid` was put in the groups titled `titles`: each title
/// names the first group whose title matches it trimmed, ignoring ASCII case, or a group made
/// for it at the end; every such group has `rid` among its members and its newest history
/// entry accepted by `user`; no other group changed.
pub open spec fn groups_done(g0: Seq<Group>, g1: Seq<Group>, titles: Seq<Seq<char>>, rid: IdView, user: Seq<char>, now: i128) -> bool {
    &&& g0.len() <= g1.len()
    &&& forall|j: int| 0 <= j < g0.len() ==> (#[trigger] g1[j]).id == g0[j].id && g1[j].title == g0[j].title && g1[j].description == g0[j].description
    &&& forall|j: int| 0 <= j < g0.len() && (forall|t: int| 0 <= t < titles.len() ==> #[trigger] title_match(g1, titles[t]) != Some(j))
        ==> #[trigger] g1[j] == g0[j]
    &&& forall|t: int| 0 <= t < titles.len() ==> (#[trigger] title_match(g1, titles[t]) matches Some(j)
        && 0 <= j < g1.len() && leads(ids_v(g1[j].members@), rid) && (g1[j].history@.len() > 0 ==> stamped(g1[j].history@, user)))
    &&& forall|j: int| g0.len() <= j < g1.len() ==> #[trigger] made_for(g1, j, titles, user, now)
}

/// The group at `j` of `gs` was made by the agent for one of `titles`.
pub open spec fn made_for(gs: Seq<Group>, j: int, titles: Seq<Seq<char>>, user: Seq<char>, now: i128) -> bool {
    exists|t: int| 0 <= t < titles.len() && #[trigger] group_created(gs[j], gs.take(j), titles[t], user, now)
}

proof fn lemma_title_match_bound(gs: Seq<Group>, t: Seq<char>)
    ensures
        title_match(gs, t) matches Some(j) ==> 0 <= j < gs.len(),
    decreases gs.len(),
{
    if gs.len() > 0 {
        lemma_title_match_bound(gs.drop_last(), t);
    }
}

/// Matching a title reads only the groups' titles.
proof fn lemma_title_match_titles(a: Seq<Group>, b: Seq<Group>, t: Seq<char>)
    requires
        a.len() == b.len(),
        forall|j: int| 0 <= j < a.len() ==> (#[trigger] a[j]).title == b[j].title,
    ensures
        title_match(a, t) == title_match(b, t),
    decreases a.len(),
{
    if a.len() > 0 {
        lemma_title_match_titles(a.drop_last(), b.drop_last(), t);
        assert(a.last().title == b.last().title);
    }
}

/// A title that matches a group of a prefix matches the same group after more are added.
proof fn lemma_title_match_prefix(a: Seq<Group>, b: Seq<Group>, t: Seq<char>)
    requires
        a.len() <= b.len(),
        forall|j: int| 0 <= j < a.len() ==> (#[trigger] a[j]).title == b[j].title,
        title_match(a, t) is Some,
    ensures
        title_match(b, t) == title_match(a, t),
    decreases b.len(),
{
    if b.len() == a.len() {
        lemma_title_match_titles(a, b, t);
    } else {
        lemma_title_match_prefix(a, b.drop_last(), t);
    }
}

fn slugs_of(groups: &Vec<Group>) -> (r: Vec<String>)
    ensures
        strings_v(r@) == group_slugs(groups@),
{
    let mut out: Vec<String> = Vec::new();
    let mut i: usize = 0;
    while i < groups.len()
        invariant
            i <= groups@.len(),
            strings_v(out@) == group_slugs(groups@.take(i as int)),
        decreases groups@.len() - i,
    {
        let ghost o0 = strings_v(out@);
        out.push(copy_str(groups[i].id.slug.as_str()));
        proof {
            assert(strings_v(out@) =~= o0.push(groups@[i as int].id.slug@));
            assert(group_slugs(groups@.take(i as int + 1)) =~= group_slugs(groups@.take(i as int)).push(groups@[i as int].id.slug@));
        }
        i += 1;
    }
    proof {
        assert(groups@.take(groups@.len() as int) =~= groups@);
    }
    out
}

/// Put `rid` in the group at `j`, then stamp the group's newest history entry.
fn join_group(groups: &mut Vec<Group>, j: usize, rid: &Id, user: &str, now: i128)
    requires
        j < old(groups)@.len(),
    ensures
        final(groups)@.len() == old(groups)@.len(),
        forall|x: int| 0 <= x < old(groups)@.len() && x != j ==> #[trigger] final(groups)@[x] == old(groups)@[x],
        final(groups)@[j as int].id == old(groups)@[j as int].id,
        final(groups)@[j as int].title == old(groups)@[j as int].title,
        final(groups)@[j as int].description == old(groups)@[j as int].description,
        leads(ids_v(final(groups)@[j as int].members@), id_v(*rid)),
        final(groups)@[j as int].history@.len() > 0 ==> stamped(final(groups)@[j as int].history@, user@),
        final(groups)@[j as int].history@.len() >= old(groups)@[j as int].history@.len(),
        old(groups)@[j as int].history@.len() >= 2 ==> final(groups)@[j as int].history@[0] == old(groups)@[j as int].history@[0],
        old(groups)@[j as int].members@.len() == 0 && old(groups)@[j as int].history@.len() >= 1
            ==> final(groups)@[j as int].history@.len() >= old(groups)@[j as int].history@.len() + 1
            && final(groups)@[j as int].history@[0] == old(groups)@[j as int].history@[0],
        old(groups)@[j as int].history@.len() >= 1 && old(groups)@[j as int].history@[0].by@ == "agent"@
            ==> entry_head(final(groups)@[j as int].history@[0]) == entry_head(old(groups)@[j as int].history@[0]),
{
    let ghost gs0 = groups@;
    let g = groups.remove(j);
    let ghost g0 = g;
    let slug = copy_str(g.id.slug.as_str());
    let mut one: Vec<Group> = Vec::new();
    one.push(g);
    let req_slugs = vec![copy_str(rid.slug.as_str())];
    let current = vec![Some(crate::ops::copy_id(rid))];
    proof {
        assert(crate::groups::first_unknown(req_slugs@, current@) is None) by {
            assert(req_slugs@.len() == 1 && current@.len() == 1 && current@[0] is Some);
            assert(crate::groups::first_unknown(req_slugs@.drop_last(), current@) is None);
        }
        assert(crate::groups::current_ids(current@, 1) =~= seq![id_v(*rid)]) by {
            assert(crate::groups::current_ids(current@, 0) =~= Seq::<IdView>::empty());
        }
    }
    let _ = assign_group(&mut one, slug.as_str(), &req_slugs, &current, "agent", now);
    let mut g2 = one.pop().unwrap();
    proof {
        let xs = seq![id_v(*rid)];
        assert(crate::groups::one_rev_per_slug(xs));
        crate::groups::lemma_assign_all_leads(ids_v(g0.members@), xs);
        assert(xs[0] == id_v(*rid));
        assert(ids_v(g2.members@) == assign_all(ids_v(g0.members@), xs));
    }
    let ghost hm = g2.history@;
    proof {
        if g0.history@.len() >= 1 {
            assert(hm.len() >= 1 && hm[0] == g0.history@[0]) by {
                if hm != g0.history@ {
                    assert(hm.drop_last() == g0.history@);
                    assert(hm[0] == hm.drop_last()[0]);
                }
            }
        }
    }
    proof {
        if g0.members@.len() == 0 {
            assert(ids_v(g0.members@) =~= Seq::<IdView>::empty());
            assert(crate::groups::first_with_slug(Seq::<IdView>::empty(), id_v(*rid).1) is None);
            assert(ids_v(g2.members@) != ids_v(g0.members@));
            assert(hm.len() == g0.history@.len() + 1);
        }
    }
    attribute(&mut g2.history, user);
    proof {
        if hm.len() >= 2 {
            assert(g2.history@[0] == g2.history@.drop_last()[0]);
            assert(hm[0] == hm.drop_last()[0]);
        }
        if g0.history@.len() >= 1 && g0.history@[0].by@ == "agent"@ {
            if hm.len() >= 2 {
                assert(g2.history@[0] == g2.history@.drop_last()[0]);
                assert(hm[0] == hm.drop_last()[0]);
            }
            assert(entry_head(g2.history@[0]) == entry_head(g0.history@[0]));
        }
    }
    groups.insert(j, g2);
    proof {
        assert forall|x: int| 0 <= x < gs0.len() && x != j implies #[trigger] groups@[x] == gs0[x] by {
            if x < j {
            } else {
            }
        }
    }
}

/// The groups after one more title: `gp` is `gs`, or `gs` with the group made for the title at
/// the end; `g1` is `gp` after the requirement joined the group at `j`.
proof fn lemma_groups_step(
    g0: Seq<Group>, gs: Seq<Group>, gp: Seq<Group>, g1: Seq<Group>, titles: Seq<Seq<char>>, k: int, j: int,
    rid: IdView, user: Seq<char>, now: i128,
)
    requires
        0 <= k < titles.len(),
        groups_done(g0, gs, titles.take(k), rid, user, now),
        (gp == gs && title_match(gs, titles[k]) == Some(j))
            || (title_match(gs, titles[k]) is None && j == gs.len() && gp.len() == gs.len() + 1 && gp.drop_last() == gs
                && group_made(gp.last(), gs, titles[k], now) && gp.last().members@.len() == 0),
        0 <= j < gp.len(),
        g1.len() == gp.len(),
        forall|x: int| 0 <= x < gp.len() && x != j ==> #[trigger] g1[x] == gp[x],
        g1[j].id == gp[j].id && g1[j].title == gp[j].title && g1[j].description == gp[j].description,
        leads(ids_v(g1[j].members@), rid),
        g1[j].history@.len() > 0 ==> stamped(g1[j].history@, user),
        gp[j].history@.len() >= 1 && gp[j].history@[0].by@ == "agent"@ ==> entry_head(g1[j].history@[0]) == entry_head(gp[j].history@[0]),
        g1[j].history@.len() >= gp[j].history@.len(),
        gp[j].history@.len() >= 2 ==> g1[j].history@[0] == gp[j].history@[0],
        gp[j].members@.len() == 0 && gp[j].history@.len() >= 1 ==> g1[j].history@.len() >= gp[j].history@.len() + 1
            && g1[j].history@[0] == gp[j].history@[0],
    ensures
        groups_done(g0, g1, titles.take(k + 1), rid, user, now),
{
    let tt = titles.take(k);
    let tn = titles.take(k + 1);
    let tk = titles[k];
    assert(tn == tt.push(titles[k]));
    assert forall|x: int| 0 <= x < gs.len() implies #[trigger] gp[x] == gs[x] by {
        if gp != gs {
            assert(gp.drop_last()[x] == gs[x]);
        }
    }
    assert forall|x: int| 0 <= x < g1.len() implies (#[trigger] g1[x]).title == gp[x].title && g1[x].id == gp[x].id by {
        if x != j {
            assert(g1[x] == gp[x]);
        }
    }
    assert(title_match(gp, tk) == Some(j)) by {
        if gp != gs {
            assert(gp.drop_last() == gs);
        }
    }
    // matching in g1 is matching in gp, and a match found in gs stays
    assert forall|x: Seq<char>| #[trigger] title_match(g1, x) == title_match(gp, x) by {
        lemma_title_match_titles(g1, gp, x);
    }
    assert forall|x: Seq<char>| title_match(gs, x) is Some implies #[trigger] title_match(gp, x) == title_match(gs, x) by {
        lemma_title_match_prefix(gs, gp, x);
    }
    // clause 1 and 2
    assert forall|x: int| 0 <= x < g0.len() implies (#[trigger] g1[x]).id == g0[x].id && g1[x].title == g0[x].title
        && g1[x].description == g0[x].description by {
        assert(gs[x].id == g0[x].id);
        assert(gp[x] == gs[x]);
        if x != j {
            assert(g1[x] == gp[x]);
        }
    }
    // clause 4
    assert forall|t: int| 0 <= t < tn.len() implies (#[trigger] title_match(g1, tn[t]) matches Some(jj)
        && 0 <= jj < g1.len() && leads(ids_v(g1[jj].members@), rid) && (g1[jj].history@.len() > 0 ==> stamped(g1[jj].history@, user))) by {
        if t == k {
            assert(tn[t] == titles[k]);
        } else {
            assert(tn[t] == tt[t]);
            assert(title_match(gs, tt[t]) is Some);
            let jj = title_match(gs, tt[t])->Some_0;
            assert(title_match(gp, tt[t]) == Some(jj));
            assert(title_match(g1, tt[t]) == Some(jj));
            if jj != j {
                assert(g1[jj] == gp[jj]);
                assert(gp[jj] == gs[jj]);
            }
        }
    }
    // clause 3
    assert forall|x: int| 0 <= x < g0.len() && (forall|t: int| 0 <= t < tn.len() ==> #[trigger] title_match(g1, tn[t]) != Some(x))
        implies #[trigger] g1[x] == g0[x] by {
        assert(title_match(g1, tn[k]) != Some(x));
        assert(tn[k] == titles[k]);
        assert(x != j);
        assert(g1[x] == gp[x]);
        assert(gp[x] == gs[x]);
        assert forall|t: int| 0 <= t < tt.len() implies #[trigger] title_match(gs, tt[t]) != Some(x) by {
            assert(tn[t] == tt[t]);
            assert(title_match(g1, tn[t]) != Some(x));
            assert(title_match(gs, tt[t]) is Some);
            assert(title_match(gp, tt[t]) == title_match(gs, tt[t]));
        }
    }
    // clause 5
    assert forall|x: int| g0.len() <= x < g1.len() implies #[trigger] made_for(g1, x, tn, user, now) by {
        assert(group_slugs(g1.take(x)) =~= group_slugs(gp.take(x)));
        if x < gs.len() {
            assert(gs[x] == gs[x]);
            assert(made_for(gs, x, tt, user, now));
            let t = choose|t: int| 0 <= t < tt.len() && #[trigger] group_created(gs[x], gs.take(x), tt[t], user, now);
            assert(tn[t] == tt[t]);
            assert(group_slugs(gp.take(x)) =~= group_slugs(gs.take(x)));
            assert(gp[x] == gs[x]);
            if x == j {
                assert(gs[x].history@[0].by@ == "agent"@);
            } else {
                assert(g1[x] == gp[x]);
            }
            assert(group_created(g1[x], g1.take(x), tn[t], user, now));
        } else {
            assert(x == gs.len() && x == j);
            assert(gp.take(x) == gs);
            assert(gp[x] == gp.last());
            assert(gp.last().history@[0].by@ == "agent"@);
            assert(tn[k] == titles[k]);
            assert(group_created(g1[x], g1.take(x), tn[k], user, now));
        }
    }
}

/// Put the requirement `rid` in the groups titled `titles`, in order: each title names the
/// first group whose title matches it (trimmed, ignoring ASCII case), or a group the agent
/// makes for it; the newest history entry of each is stamped as accepted by `user`.
fn accept_groups(groups: &mut Vec<Group>, titles: &Vec<String>, rid: &Id, user: &str, now: i128)
    requires
        !blank_unmatched(old(groups)@, strings_v(titles@)),
    ensures
        groups_done(old(groups)@, final(groups)@, strings_v(titles@), id_v(*rid), user@, now),
{
    let ghost g0 = groups@;
    let mut k: usize = 0;
    proof {
        assert(strings_v(titles@).take(0).len() == 0);
    }
    while k < titles.len()
        invariant
            k <= titles@.len(),
            !blank_unmatched(g0, strings_v(titles@)),
            groups_done(g0, groups@, strings_v(titles@).take(k as int), id_v(*rid), user@, now),
        decreases titles@.len() - k,
    {
        let ghost gs = groups@;
        let ghost tk = titles@[k as int]@;
        let j = match find_group_by_title(groups, titles[k].as_str()) {
            Some(j) => {
                proof {
                    lemma_title_match_bound(gs, tk);
                }
                j
            },
            None => {
                proof {
                    if title_match(g0, tk) is Some {
                        lemma_title_match_prefix(g0, gs, tk);
                    }
                    if trim_ws(tk).len() == 0 {
                        assert(strings_v(titles@)[k as int] == tk);
                        assert(title_match(g0, strings_v(titles@)[k as int]) is None);
                        assert(blank_unmatched(g0, strings_v(titles@)));
                    }
                }
                let slugs = slugs_of(groups);
                let g = match create_group(titles[k].as_str(), None, &slugs, "agent", now) {
                    Ok(g) => g,
                    Err(_) => {
                        proof {
                            assert(false);
                        }
                        return;
                    },
                };
                groups.push(g);
                proof {
                    assert(groups@.drop_last() == gs);
                    assert(groups@.last() == g);
                    reveal_strlit("agent");
                    reveal_strlit("create");
                    assert(group_made(g, gs, tk, now));
                    assert(g.members@.len() == 0);
                }
                groups.len() - 1
            },
        };
        let ghost gp = groups@;
        join_group(groups, j, rid, user, now);
        proof {
            assert(strings_v(titles@)[k as int] == tk);
            lemma_groups_step(g0, gs, gp, groups@, strings_v(titles@), k as int, j as int, id_v(*rid), user@, now);
        }
        k += 1;
    }
    proof {
        assert(strings_v(titles@).take(titles@.len() as int) =~= strings_v(titles@));
    }
}

// ---------- attaching to an existing requirement ----------

/// `n` is the current rev `o` after the agent anchored it to `spans` of `doc`, the new
/// history entry accepted by `user`.
pub open spec fn attached_accepted(o: ReqRev, n: ReqRev, doc: Seq<char>, spans: Seq<Seq<char>>, user: Seq<char>, now: i128) -> bool {
    &&& req_kept(n, o)
    &&& anchors_v(n.anchors@) == add_anchors(anchors_v(o.anchors@), doc, spans)
    &&& n.history@.len() == o.history@.len() + 1
    &&& n.history@.drop_last() == o.history@
    &&& entry_head(n.history@.last()) == ("anchor"@, "agent"@, now, None::<Seq<char>>)
    &&& stamped(n.history@, user)
    &&& n.history@.last().from matches Some(HistoryValue::Anchors(a)) && anchors_v(a@) == anchors_v(o.anchors@)
    &&& n.history@.last().to matches Some(HistoryValue::Anchors(b)) && anchors_v(b@) == anchors_v(n.anchors@)
}

/// The requirement `slug` has a file holding at least one rev.
pub open spec fn has_req(reqs: Seq<(String, Vec<ReqRev>)>, slug: Seq<char>) -> bool {
    exists|k: int| #[trigger] first_file(reqs, slug, k) && reqs[k].1@.len() > 0
}

/// `r1` is `r0` after the agent anchored the requirement `slug` to `spans` of `doc`, accepted
/// by `user`; `res` names its current rev.
pub open spec fn attach_done(
    r0: Seq<(String, Vec<ReqRev>)>, r1: Seq<(String, Vec<ReqRev>)>, slug: Seq<char>, doc: Seq<char>, spans: Seq<Seq<char>>,
    user: Seq<char>, now: i128, res: Seq<char>,
) -> bool {
    exists|k: int| #[trigger] first_file(r0, slug, k) && r0[k].1@.len() > 0
        && r1.len() == r0.len()
        && (forall|x: int| 0 <= x < r0.len() && x != k ==> #[trigger] r1[x] == r0[x])
        && r1[k].0 == r0[k].0
        && current_changed(r0[k].1@, r1[k].1@)
        && attached_accepted(r0[k].1@.last(), r1[k].1@.last(), doc, spans, user, now)
        && res == r1[k].1@.last().id.text()
}

fn no_requirement(slug: &str) -> (m: String)
    ensures
        m@ == no_requirement_message(slug@),
{
    let mut m = copy_str("no requirement `");
    push_str(&mut m, slug);
    push_char(&mut m, '`');
    m
}

proof fn lemma_first_file_unique(files: Seq<(String, Vec<ReqRev>)>, slug: Seq<char>, a: int, b: int)
    requires
        first_file(files, slug, a),
        first_file(files, slug, b),
    ensures
        a == b,
{
    if a < b {
        assert(files[a].0@ != slug);
    } else if b < a {
        assert(files[b].0@ != slug);
    }
}

/// Anchor the existing requirement `slug` to `spans` of `doc` as the agent, accepted by `user`.
fn accept_attach(reqs: &mut Vec<(String, Vec<ReqRev>)>, slug: &str, doc: &str, spans: &Vec<String>, user: &str, now: i128) -> (r: Result<String, String>)
    ensures
        has_req(old(reqs)@, slug@) ==> (r matches Ok(res) && attach_done(old(reqs)@, final(reqs)@, slug@, doc@, strings_v(spans@), user@, now, res@)),
        !has_req(old(reqs)@, slug@) ==> (r matches Err(m) && m@ == no_requirement_message(slug@) && final(reqs)@ == old(reqs)@),
{
    let ghost r0 = reqs@;
    let k = match find_file(reqs, slug) {
        Some(k) => k,
        None => {
            proof {
                assert forall|k: int| !(#[trigger] first_file(r0, slug@, k) && r0[k].1@.len() > 0) by {}
            }
            return Err(no_requirement(slug));
        },
    };
    if reqs[k].1.len() == 0 {
        proof {
            assert forall|x: int| !(#[trigger] first_file(r0, slug@, x) && r0[x].1@.len() > 0) by {
                if first_file(r0, slug@, x) {
                    lemma_first_file_unique(r0, slug@, x, k as int);
                }
            }
        }
        return Err(no_requirement(slug));
    }
    let (name, mut revs) = reqs.remove(k);
    let ghost o = revs@;
    let _ = attach_req(&mut revs, slug, doc, spans, "agent", now);
    let ghost mid = revs@;
    let mut cur = revs.pop().unwrap();
    let ghost c0 = cur;
    attribute(&mut cur.history, user);
    let res = cur.id.to_string();
    revs.push(cur);
    reqs.insert(k, (name, revs));
    proof {
        assert(revs@.drop_last() == mid.drop_last());
        assert(current_changed(o, revs@));
        assert(c0.history@.len() > 0);
        assert(attached_accepted(o.last(), revs@.last(), doc@, strings_v(spans@), user@, now));
        assert forall|x: int| 0 <= x < r0.len() && x != k implies #[trigger] reqs@[x] == r0[x] by {}
        assert(attach_done(r0, reqs@, slug@, doc@, strings_v(spans@), user@, now, res@));
    }
    Ok(res)
}

// ---------- creating a requirement ----------

/// The slug a proposed requirement starts from: its own, or one made from its statement.
pub open spec fn proposed_base(statement: Seq<char>, slug: Option<Seq<char>>) -> Seq<char> {
    match slug {
        Some(s) => s,
        None => spec_slugify(statement, 32),
    }
}

/// No free slug can be made from `base` against the slugs `taken`.
pub open spec fn slug_refused(base: Seq<char>, taken: Seq<Seq<char>>) -> bool {
    !spec_valid_slug(base) || all_taken(base, taken, 1000)
}

/// `r` is the requirement the agent made on `spans` of `doc` from the proposed statement,
/// its slug made free from `base` against `taken`, accepted by `user`.
pub open spec fn created_accepted(
    r: ReqRev, doc: Seq<char>, spans: Seq<String>, statement: Seq<char>, pattern: Option<Pattern>, base: Seq<char>, taken: Seq<Seq<char>>,
    user: Seq<char>, now: i128,
) -> bool {
    &&& free_slug_result(base, taken, Ok(r.id.slug@))
    &&& r.id.ty@ == "req"@ && r.id.rev == 1
    &&& r.statement@ == statement && r.pattern == pattern && r.rating is None && r.owner is None
    &&& r.status == Status::Extracted && r.reason is None && r.suspect is None
    &&& anchors_v(r.anchors@) == anchors_on(doc, strings_v(spans))
    &&& r.questions@.len() == 0
    &&& entry_heads(r.history@) == seq![("create"@, "agent"@, now, None::<Seq<char>>)]
    &&& r.history@[0].from is None && r.history@[0].to is None
    &&& stamped(r.history@, user)
}

/// `r1` is `r0` with the file of the new requirement added, and `g1` is `g0` with it put in the
/// groups titled `titles`; `res` names it.
pub open spec fn create_done(
    r0: Seq<(String, Vec<ReqRev>)>, r1: Seq<(String, Vec<ReqRev>)>, g0: Seq<Group>, g1: Seq<Group>, doc: Seq<char>, spans: Seq<String>,
    statement: Seq<char>, pattern: Option<Pattern>, base: Seq<char>, taken: Seq<Seq<char>>, titles: Seq<Seq<char>>, user: Seq<char>, now: i128,
    res: Seq<char>,
) -> bool {
    &&& r1.len() == r0.len() + 1
    &&& r1.drop_last() == r0
    &&& r1.last().1@.len() == 1
    &&& r1.last().0@ == r1.last().1@[0].id.slug@
    &&& created_accepted(r1.last().1@[0], doc, spans, statement, pattern, base, taken, user, now)
    &&& res == r1.last().1@[0].id.text()
    &&& groups_done(g0, g1, titles, id_v(r1.last().1@[0].id), user, now)
}

fn blank_title(groups: &Vec<Group>, titles: &Vec<String>) -> (b: bool)
    ensures
        b == blank_unmatched(groups@, strings_v(titles@)),
{
    let mut i: usize = 0;
    while i < titles.len()
        invariant
            i <= titles@.len(),
            forall|t: int| 0 <= t < i ==> !(trim_ws(titles@[t]@).len() == 0 && #[trigger] title_match(groups@, titles@[t]@) is None),
        decreases titles@.len() - i,
    {
        let tv = crate::blocks::trim_chars(&crate::text::chars_of(titles[i].as_str()));
        if tv.len() == 0 {
            if find_group_by_title(groups, titles[i].as_str()).is_none() {
                proof {
                    assert(strings_v(titles@)[i as int] == titles@[i as int]@);
                    assert(trim_ws(titles@[i as int]@).len() == 0 && title_match(groups@, titles@[i as int]@) is None);
                }
                return true;
            }
        }
        i += 1;
    }
    false
}

/// Create the proposed requirement on `spans` of `doc` as the agent, accepted by `user`, and put
/// it in the groups titled `titles`.
fn accept_create(
    reqs: &mut Vec<(String, Vec<ReqRev>)>, groups: &mut Vec<Group>, statement: &str, slug: Option<&str>, pattern: Option<Pattern>,
    titles: &Vec<String>, doc: &str, spans: &Vec<String>, taken: &Vec<String>, user: &str, now: i128,
) -> (r: Result<String, String>)
    ensures
        ({
            let base = proposed_base(statement@, str_opt_v(slug));
            if slug_refused(base, strings_v(taken@)) {
                r matches Err(m) && free_slug_result(base, strings_v(taken@), Err(m@))
            } else if blank_unmatched(old(groups)@, strings_v(titles@)) {
                r matches Err(m) && m@ == "group title is required"@
            } else {
                r matches Ok(res) && create_done(old(reqs)@, final(reqs)@, old(groups)@, final(groups)@, doc@, spans@, statement@, pattern, base,
                    strings_v(taken@), strings_v(titles@), user@, now, res@)
            }
        }),
        r is Err ==> final(reqs)@ == old(reqs)@ && final(groups)@ == old(groups)@,
{
    let new = NewReq { statement, slug, pattern, rating: None, owner: None };
    let mut req = match create_req(doc, spans, &new, taken, "agent", now) {
        Ok(q) => q,
        Err(m) => {
            return Err(m);
        },
    };
    if blank_title(groups, titles) {
        proof {
            reveal_strlit("group title is required");
        }
        return Err(copy_str("group title is required"));
    }
    let ghost h0 = req.history@;
    attribute(&mut req.history, user);
    proof {
        assert(entry_heads(req.history@) =~= entry_heads(h0));
    }
    let rid = crate::ops::copy_id(&req.id);
    let name = copy_str(req.id.slug.as_str());
    let res = req.id.to_string();
    let ghost r0 = reqs@;
    let ghost q = req;
    let mut revs: Vec<ReqRev> = Vec::new();
    revs.push(req);
    reqs.push((name, revs));
    accept_groups(groups, titles, &rid, user, now);
    proof {
        assert(reqs@.drop_last() == r0);
        assert(reqs@.last().1@[0] == q);
        assert(id_v(rid) == id_v(q.id));
    }
    Ok(res)
}

// ---------- raising a question ----------

/// The quote a proposed question is raised with: `?` in place of a blank one.
pub open spec fn question_quote(quote: Seq<char>) -> Seq<char> {
    if trim_ws(quote).len() == 0 { "?"@ } else { quote }
}

/// The readings of a proposed question, keyed `a`, `b`, `c`, …, none the default.
pub open spec fn keyed_readings(rs: Seq<String>) -> Seq<(Seq<char>, Seq<char>, bool)> {
    Seq::new(rs.len(), |i: int| (reading_key(i), rs[i]@, false))
}

/// `q` is the question the agent raised on `spans` of `doc`, accepted by `user`: its slug the
/// first free one made from the quote against `used`, no requirement affected.
pub open spec fn question_accepted(
    q: Question, doc: Seq<char>, spans: Seq<String>, quote: Seq<char>, materiality: Level, rv: Seq<(Seq<char>, Seq<char>, bool)>,
    used: Seq<Seq<char>>, user: Seq<char>, now: i128,
) -> bool {
    let base = spec_slugify(quote, 32);
    &&& q.id.ty@ == "qst"@ && q.id.rev == 1
    &&& exists|i: nat| i >= 1 && all_taken(base, used, i) && q.id.slug@ == #[trigger] candidate(base, i) && !used.contains(q.id.slug@)
    &&& q.status == QstStatus::Open
    &&& q.quote@ == quote
    &&& anchors_v(q.anchors@) == anchors_on(doc, strings_v(spans))
    &&& q.materiality == materiality
    &&& q.readings@.map_values(|x: Reading| reading_v(x)) == rv
    &&& q.affects@.len() == 0 && q.affects_revs@.len() == 0
    &&& q.answer is None && q.pending is None
    &&& entry_heads(q.history@) == seq![("raise"@, "agent"@, now, None::<Seq<char>>)]
    &&& q.history@[0].from is None && q.history@[0].to is None
    &&& stamped(q.history@, user)
}

/// The first free slug made from `base` against `used` is no valid slug; `m` says so.
pub open spec fn question_refused(m: Seq<char>, base: Seq<char>, used: Seq<Seq<char>>) -> bool {
    exists|i: nat| i >= 1 && all_taken(base, used, i) && !used.contains(#[trigger] candidate(base, i))
        && !spec_valid_slug(candidate(base, i))
        && m == crate::id::parse_error_message(crate::id::render("qst"@, candidate(base, i), 1),
            crate::id::spec_parse_error(crate::id::render("qst"@, candidate(base, i), 1)))
}

/// `q1` is `q0` with the file of the new question added; `res` names it.
pub open spec fn question_done(
    q0: Seq<(String, Vec<Question>)>, q1: Seq<(String, Vec<Question>)>, doc: Seq<char>, spans: Seq<String>, quote: Seq<char>,
    materiality: Level, rv: Seq<(Seq<char>, Seq<char>, bool)>, used: Seq<Seq<char>>, user: Seq<char>, now: i128, res: Seq<char>,
) -> bool {
    &&& q1.len() == q0.len() + 1
    &&& q1.drop_last() == q0
    &&& q1.last().1@.len() == 1
    &&& q1.last().0@ == q1.last().1@[0].id.slug@
    &&& question_accepted(q1.last().1@[0], doc, spans, quote, materiality, rv, used, user, now)
    &&& res == q1.last().1@[0].id.text()
}

/// Raise the proposed question on `spans` of `doc` as the agent, accepted by `user`.
fn accept_question(
    qsts: &mut Vec<(String, Vec<Question>)>, quote: &str, materiality: Level, readings: Vec<(String, String)>, doc: &str,
    spans: &Vec<String>, used: &Vec<String>, user: &str, now: i128,
) -> (r: Result<String, String>)
    ensures
        r matches Ok(res) ==> question_done(old(qsts)@, final(qsts)@, doc@, spans@, quote@, materiality, readings_of(readings@, None),
            strings_v(used@), user@, now, res@),
        r matches Err(m) ==> question_refused(m@, spec_slugify(quote@, 32), strings_v(used@)) && final(qsts)@ == old(qsts)@,
{
    let ghost rs = readings@;
    let new = NewQuestion { quote, materiality, readings, default: None, affects: Vec::new(), slug: None };
    let current: Vec<Option<Id>> = Vec::new();
    proof {
        assert(first_missing(new.affects@, current@) is None);
    }
    let mut q = match flag_question(doc, spans, &new, used, &current, "agent", now) {
        Ok(q) => q,
        Err(m) => {
            return Err(m);
        },
    };
    let ghost h0 = q.history@;
    attribute(&mut q.history, user);
    proof {
        assert(entry_heads(q.history@) =~= entry_heads(h0));
        assert(ids_v(q.affects@).len() == 0);
    }
    let name = copy_str(q.id.slug.as_str());
    let res = q.id.to_string();
    let ghost q0 = qsts@;
    let ghost qq = q;
    let mut revs: Vec<Question> = Vec::new();
    revs.push(q);
    qsts.push((name, revs));
    proof {
        assert(qsts@.drop_last() == q0);
        assert(qsts@.last().1@[0] == qq);
    }
    Ok(res)
}

// ---------- accepting a proposal ----------

/// The materiality a proposed question is raised with: `M` when none was proposed.
pub open spec fn level_or_m(l: Option<Level>) -> Level {
    match l {
        Some(x) => x,
        None => Level::M,
    }
}

/// What accepting the proposed `p` did: the reqs `r0`, questions `q0`, current groups `g0` and
/// marks `m0` became `r1`, `q1`, `g1`, `m1`, and the result `r` names what was made.
pub open spec fn acceptance(
    p: Proposal, r: Result<String, String>, user: Seq<char>, doc: Seq<char>, r0: Seq<(String, Vec<ReqRev>)>, r1: Seq<(String, Vec<ReqRev>)>,
    q0: Seq<(String, Vec<Question>)>, q1: Seq<(String, Vec<Question>)>, g0: Seq<Group>, g1: Seq<Group>, m0: Marks, m1: Marks,
    taken: Seq<Seq<char>>, used: Seq<Seq<char>>, now: i128,
) -> bool {
    match p.proposed {
        Proposed::Context => r matches Ok(res) && res@ == "context"@
            && marked(m0, m1, p.spans@, "agent (accepted by "@ + user + seq![')'], now)
            && r1 == r0 && q1 == q0 && g1 == g0,
        Proposed::Req { statement, pattern, slug, groups, attach } => match attach {
            Some(t) => if has_req(r0, t@) {
                r matches Ok(res) && attach_done(r0, r1, t@, doc, strings_v(p.spans@), user, now, res@) && q1 == q0 && g1 == g0 && m1 == m0
            } else {
                r matches Err(m) && m@ == no_requirement_message(t@)
            },
            None => {
                let base = proposed_base(statement@, opt_v(slug));
                if slug_refused(base, taken) {
                    r matches Err(m) && free_slug_result(base, taken, Err(m@))
                } else if blank_unmatched(g0, strings_v(groups@)) {
                    r matches Err(m) && m@ == "group title is required"@
                } else {
                    r matches Ok(res) && create_done(r0, r1, g0, g1, doc, p.spans@, statement@, pattern, base, taken, strings_v(groups@), user, now, res@)
                        && q1 == q0 && m1 == m0
                }
            },
        },
        Proposed::Question { quote, materiality, readings } => match r {
            Ok(res) => question_done(q0, q1, doc, p.spans@, question_quote(quote@), level_or_m(materiality), keyed_readings(readings@),
                used, user, now, res@) && r1 == r0 && g1 == g0 && m1 == m0,
            Err(m) => question_refused(m@, spec_slugify(question_quote(quote@), 32), used),
        },
    }
}

proof fn lemma_proposal_index_bound(ps: Seq<Proposal>, id: Seq<char>)
    ensures
        proposal_index(ps, id) matches Some(i) ==> 0 <= i < ps.len(),
    decreases ps.len(),
{
    if ps.len() > 0 {
        lemma_proposal_index_bound(ps.drop_last(), id);
    }
}

/// `ps1` is `ps0` with the proposal at `i` accepted, `res` its result.
pub open spec fn recorded(ps0: Seq<Proposal>, ps1: Seq<Proposal>, i: int, res: Seq<char>) -> bool {
    &&& ps1.len() == ps0.len()
    &&& ps1 == ps0.update(i, ps1[i])
    &&& ps1[i].status == ProposalStatus::Accepted
    &&& opt_v(ps1[i].result) == Some(res)
    &&& ps1[i].id == ps0[i].id && ps1[i].spans == ps0[i].spans && ps1[i].proposed == ps0[i].proposed && ps1[i].rationale == ps0[i].rationale
}

/// Accept proposal `proposal_id` on `doc` for `user`: do what it proposes as the agent, each
/// new history entry accepted by `user`, and record it accepted with what it made. A context
/// proposal marks its spans non-normative; a requirement proposal anchors an existing
/// requirement or creates one and puts it in the groups it names (found by title, trimmed and
/// ignoring ASCII case, or made); a question proposal raises a question. `reqs` and `qsts` hold
/// the requirement and question files (slug, revs), `groups` the current rev of each group;
/// `taken` and `used` are the requirement and question slugs in use. Nothing changes when it
/// fails. Questions with more readings than keys from `a` through byte 255 are out of scope.
pub fn apply_acceptance(
    all: &mut Proposals, proposal_id: &str, user: &str, doc: &str, reqs: &mut Vec<(String, Vec<ReqRev>)>,
    qsts: &mut Vec<(String, Vec<Question>)>, groups: &mut Vec<Group>, marks: &mut Marks, taken: &Vec<String>, used: &Vec<String>, now: i128,
) -> (r: Result<String, String>)
    requires
        forall|i: int| 0 <= i < old(all).items@.len() ==> readings_fit(#[trigger] old(all).items@[i]),
    ensures
        r is Err ==> *final(all) == *old(all) && final(reqs)@ == old(reqs)@ && final(qsts)@ == old(qsts)@ && final(groups)@ == old(groups)@
            && *final(marks) == *old(marks),
        match proposal_index(old(all).items@, proposal_id@) {
            None => r matches Err(m) && m@ == "no proposal `"@ + proposal_id@ + seq!['`'],
            Some(i) => if old(all).items@[i].status != ProposalStatus::Proposed {
                r matches Err(m) && m@ == "proposal already "@ + status_debug(old(all).items@[i].status)
            } else {
                &&& acceptance(old(all).items@[i], r, user@, doc@, old(reqs)@, final(reqs)@, old(qsts)@, final(qsts)@, old(groups)@,
                    final(groups)@, *old(marks), *final(marks), strings_v(taken@), strings_v(used@), now)
                &&& r matches Ok(res) ==> recorded(old(all).items@, final(all).items@, i, res@)
            },
        },
{
    let (i, action) = match accept_proposal(all, proposal_id) {
        Ok(x) => x,
        Err(m) => {
            return Err(m);
        },
    };
    proof {
        lemma_proposal_index_bound(all.items@, proposal_id@);
    }
    let ghost p = all.items@[i as int];
    let ghost a0 = all.items@;
    let res = match action {
        ProposalAction::Context => {
            let by = agent_mark_by(user);
            mark_non_normative(marks, &all.items[i].spans, by.as_str(), now);
            proof {
                reveal_strlit("context");
            }
            copy_str("context")
        },
        ProposalAction::Attach { slug } => match accept_attach(reqs, slug.as_str(), doc, &all.items[i].spans, user, now) {
            Ok(x) => x,
            Err(m) => {
                return Err(m);
            },
        },
        ProposalAction::Create { statement, slug, pattern, groups: titles } => {
            let s: Option<&str> = match &slug {
                Some(x) => Some(x.as_str()),
                None => None,
            };
            proof {
                assert(str_opt_v(s) == opt_v(slug));
            }
            match accept_create(reqs, groups, statement.as_str(), s, pattern, &titles, doc, &all.items[i].spans, taken, user, now) {
                Ok(x) => x,
                Err(m) => {
                    return Err(m);
                },
            }
        },
        ProposalAction::Question { quote, materiality, readings } => {
            let ghost rs = readings@;
            let out = accept_question(qsts, quote.as_str(), materiality, readings, doc, &all.items[i].spans, used, user, now);
            proof {
                if let Proposed::Question { readings: pr, .. } = p.proposed {
                    assert(readings_of(rs, None) =~= keyed_readings(pr@));
                }
            }
            match out {
                Ok(x) => x,
                Err(m) => {
                    return Err(m);
                },
            }
        },
    };
    record_acceptance(all, proposal_id, copy_str(res.as_str()));
    Ok(res)
}

// ---------- accepting every proposal ----------

/// How many of the first `k` proposals went from proposed to accepted.
pub open spec fn accepted_count(ps0: Seq<Proposal>, ps1: Seq<Proposal>, k: int) -> nat
    decreases k,
{
    if k <= 0 {
        0
    } else {
        accepted_count(ps0, ps1, k - 1) + if ps0[k - 1].status == ProposalStatus::Proposed && ps1[k - 1].status == ProposalStatus::Accepted {
            1nat
        } else {
            0nat
        }
    }
}

/// `ps1` is `ps0` with some proposed items accepted: every other item, and all but the status
/// and result of an accepted one, stay.
pub open spec fn only_accepted(ps0: Seq<Proposal>, ps1: Seq<Proposal>) -> bool {
    &&& ps1.len() == ps0.len()
    &&& forall|k: int| 0 <= k < ps0.len() ==> (#[trigger] ps1[k] == ps0[k] || (ps0[k].status == ProposalStatus::Proposed
        && ps1[k].status == ProposalStatus::Accepted && ps1[k].id == ps0[k].id && ps1[k].spans == ps0[k].spans
        && ps1[k].proposed == ps0[k].proposed && ps1[k].rationale == ps0[k].rationale))
}

proof fn lemma_accepted_count_step(ps0: Seq<Proposal>, a: Seq<Proposal>, b: Seq<Proposal>, i: int, k: int)
    requires
        0 <= i < ps0.len(),
        0 <= k <= ps0.len(),
        a.len() == ps0.len() && b.len() == ps0.len(),
        b == a.update(i, b[i]),
        ps0[i].status == ProposalStatus::Proposed,
        a[i].status == ProposalStatus::Proposed,
        b[i].status == ProposalStatus::Accepted,
    ensures
        accepted_count(ps0, b, k) == accepted_count(ps0, a, k) + if i < k { 1nat } else { 0nat },
    decreases k,
{
    if k > 0 {
        lemma_accepted_count_step(ps0, a, b, i, k - 1);
        if k - 1 != i {
            assert(b[k - 1] == a[k - 1]);
        }
    }
}

/// What accepting proposals works on: the proposals, the requirement and question files, the
/// current groups, the marks, and the requirement and question slugs in use.
#[verifier::ext_equal]
pub struct AcceptState {
    pub all: Seq<Proposal>,
    pub reqs: Seq<(String, Vec<ReqRev>)>,
    pub qsts: Seq<(String, Vec<Question>)>,
    pub groups: Seq<Group>,
    pub marks: Marks,
    pub taken: Seq<Seq<char>>,
    pub used: Seq<Seq<char>>,
}

/// The state made of these parts.
pub open spec fn accept_state(
    all: Seq<Proposal>, reqs: Seq<(String, Vec<ReqRev>)>, qsts: Seq<(String, Vec<Question>)>, groups: Seq<Group>, marks: Marks,
    taken: Seq<Seq<char>>, used: Seq<Seq<char>>,
) -> AcceptState {
    AcceptState { all, reqs, qsts, groups, marks, taken, used }
}

/// The ids of the proposals in `ps` still proposed, in order.
pub open spec fn pending_ids(ps: Seq<Proposal>) -> Seq<Seq<char>> {
    ps.filter(|p: Proposal| p.status == ProposalStatus::Proposed).map_values(|p: Proposal| p.id@)
}

/// Every one of `spans` is in the snapshot `snap`.
pub open spec fn spans_in(snap: crate::snapshot::Snapshot, spans: Seq<String>) -> bool {
    forall|k: int| 0 <= k < spans.len() ==> crate::classify::in_snapshot(snap, (#[trigger] spans[k])@)
}

/// `s` with `x` added at the end when `grew`.
pub open spec fn push_if(s: Seq<Seq<char>>, grew: bool, x: Seq<char>) -> Seq<Seq<char>> {
    if grew {
        s.push(x)
    } else {
        s
    }
}

/// Accepting the proposal named `id` took `a` to `b`; `ok` says whether it was accepted. A
/// proposal not found, already decided, or with a span missing from `snap` changes nothing; one
/// whose acceptance fails changes nothing; an accepted one changes what `acceptance` says, is
/// recorded with its result, and the slug of a requirement or question it made is in use after.
pub open spec fn accept_step(
    id: Seq<char>, a: AcceptState, b: AcceptState, ok: bool, user: Seq<char>, doc: Seq<char>, snap: crate::snapshot::Snapshot, now: i128,
) -> bool {
    match proposal_index(a.all, id) {
        None => b == a && !ok,
        Some(i) => if !spans_in(snap, a.all[i].spans@) || a.all[i].status != ProposalStatus::Proposed {
            b == a && !ok
        } else {
            exists|r: Result<String, String>|
                #[trigger] acceptance(a.all[i], r, user, doc, a.reqs, b.reqs, a.qsts, b.qsts, a.groups, b.groups, a.marks, b.marks, a.taken, a.used, now)
                && match r {
                    Err(_) => b == a && !ok,
                    Ok(res) => ok && recorded(a.all, b.all, i, res@)
                        && b.taken == push_if(a.taken, b.reqs.len() > a.reqs.len(), b.reqs.last().0@)
                        && b.used == push_if(a.used, b.qsts.len() > a.qsts.len(), b.qsts.last().0@),
                }
        },
    }
}

/// `states` and `oks` trace accepting the proposals named `ids` one after another: accepting
/// `ids[k]` took `states[k]` to `states[k + 1]`, and `oks[k]` says whether it was accepted.
pub open spec fn accept_trace(
    ids: Seq<Seq<char>>, states: Seq<AcceptState>, oks: Seq<bool>, user: Seq<char>, doc: Seq<char>, snap: crate::snapshot::Snapshot, now: i128,
) -> bool {
    &&& states.len() == ids.len() + 1
    &&& oks.len() == ids.len()
    &&& forall|k: int| #![trigger oks[k]] 0 <= k < ids.len() ==> accept_step(ids[k], states[k], states[k + 1], oks[k], user, doc, snap, now)
}

/// How many of `bs` are true.
pub open spec fn count_true(bs: Seq<bool>) -> nat
    decreases bs.len(),
{
    if bs.len() == 0 {
        0
    } else {
        count_true(bs.drop_last()) + if bs.last() { 1nat } else { 0nat }
    }
}

/// Accept every proposal still proposed, in order, as `apply_acceptance` does one by one; a
/// proposal whose spans are not all in the snapshot `snap` is left proposed, as is one whose
/// acceptance fails. Each requirement or question made takes its slug out of `taken` or `used`
/// for the next. Returns how many were accepted.
pub fn accept_all_proposals(
    all: &mut Proposals, user: &str, doc: &str, snap: &crate::snapshot::Snapshot, reqs: &mut Vec<(String, Vec<ReqRev>)>,
    qsts: &mut Vec<(String, Vec<Question>)>, groups: &mut Vec<Group>, marks: &mut Marks, taken: &mut Vec<String>, used: &mut Vec<String>,
    now: i128,
) -> (n: usize)
    requires
        forall|i: int| 0 <= i < old(all).items@.len() ==> readings_fit(#[trigger] old(all).items@[i]),
    ensures
        exists|states: Seq<AcceptState>, oks: Seq<bool>|
            #[trigger] accept_trace(pending_ids(old(all).items@), states, oks, user@, doc@, *snap, now)
            && states[0] == accept_state(old(all).items@, old(reqs)@, old(qsts)@, old(groups)@, *old(marks), strings_v(old(taken)@),
                strings_v(old(used)@))
            && states.last() == accept_state(final(all).items@, final(reqs)@, final(qsts)@, final(groups)@, *final(marks),
                strings_v(final(taken)@), strings_v(final(used)@))
            && n == count_true(oks),
        only_accepted(old(all).items@, final(all).items@),
        n == accepted_count(old(all).items@, final(all).items@, old(all).items@.len() as int),
{
    let ghost a0 = all.items@;
    let ghost s0 = accept_state(all.items@, reqs@, qsts@, groups@, *marks, strings_v(taken@), strings_v(used@));
    let ids = crate::ops::pending_proposal_ids(all);
    let ghost idv = strings_v(ids@);
    let mut n: usize = 0;
    let mut t: usize = 0;
    let ghost mut states: Seq<AcceptState> = seq![s0];
    let ghost mut oks: Seq<bool> = Seq::empty();
    proof {
        assert(accepted_count(a0, a0, a0.len() as int) == 0) by {
            lemma_accepted_count_same(a0, a0.len() as int);
        }
        assert(idv.take(0) =~= Seq::<Seq<char>>::empty());
    }
    while t < ids.len()
        invariant
            t <= ids@.len(),
            n <= t,
            idv == strings_v(ids@),
            only_accepted(a0, all.items@),
            n == accepted_count(a0, all.items@, a0.len() as int),
            forall|i: int| 0 <= i < all.items@.len() ==> readings_fit(#[trigger] all.items@[i]),
            accept_trace(idv.take(t as int), states, oks, user@, doc@, *snap, now),
            states[0] == s0,
            states.last() == accept_state(all.items@, reqs@, qsts@, groups@, *marks, strings_v(taken@), strings_v(used@)),
            n == count_true(oks),
        decreases ids@.len() - t,
    {
        let ghost sa = accept_state(all.items@, reqs@, qsts@, groups@, *marks, strings_v(taken@), strings_v(used@));
        let ghost mut ok = false;
        let id = ids[t].as_str();
        proof {
            assert(id@ == idv[t as int]);
        }
        match crate::ops::find_proposal(&all.items, id) {
            Some(i) => {
                if crate::classify::check_spans(snap, doc, &all.items[i].spans).is_ok() {
                    let ghost cur = all.items@;
                    let nr = reqs.len();
                    let nq = qsts.len();
                    let out = apply_acceptance(all, id, user, doc, reqs, qsts, groups, marks, taken, used, now);
                    let ghost rr = out;
                    match out {
                        Ok(_) => {
                            proof {
                                ok = true;
                                assert(proposal_index(cur, id@) == Some(i as int));
                                assert(cur[i as int].status == ProposalStatus::Proposed);
                                assert(a0[i as int].status == ProposalStatus::Proposed) by {
                                    if a0[i as int] != cur[i as int] {
                                        assert(cur[i as int].status == ProposalStatus::Accepted);
                                    }
                                }
                                lemma_accepted_count_step(a0, cur, all.items@, i as int, a0.len() as int);
                                assert forall|k: int| 0 <= k < a0.len() implies (#[trigger] all.items@[k] == a0[k] || (a0[k].status == ProposalStatus::Proposed
                                    && all.items@[k].status == ProposalStatus::Accepted && all.items@[k].id == a0[k].id && all.items@[k].spans == a0[k].spans
                                    && all.items@[k].proposed == a0[k].proposed && all.items@[k].rationale == a0[k].rationale)) by {
                                    if k != i {
                                        assert(all.items@[k] == cur[k]);
                                    }
                                }
                                assert forall|k: int| 0 <= k < all.items@.len() implies readings_fit(#[trigger] all.items@[k]) by {
                                    if k != i {
                                        assert(all.items@[k] == cur[k]);
                                    } else {
                                        assert(readings_fit(cur[k]));
                                    }
                                }
                            }
                            n += 1;
                            if reqs.len() > nr {
                                let s = copy_str(reqs[reqs.len() - 1].0.as_str());
                                let ghost t0 = taken@;
                                taken.push(s);
                                proof {
                                    assert(strings_v(taken@) =~= strings_v(t0).push(reqs@.last().0@));
                                }
                            }
                            if qsts.len() > nq {
                                let s = copy_str(qsts[qsts.len() - 1].0.as_str());
                                let ghost u0 = used@;
                                used.push(s);
                                proof {
                                    assert(strings_v(used@) =~= strings_v(u0).push(qsts@.last().0@));
                                }
                            }
                            proof {
                                let sb = accept_state(all.items@, reqs@, qsts@, groups@, *marks, strings_v(taken@), strings_v(used@));
                                assert(acceptance(sa.all[i as int], rr, user@, doc@, sa.reqs, sb.reqs, sa.qsts, sb.qsts, sa.groups, sb.groups, sa.marks,
                                    sb.marks, sa.taken, sa.used, now));
                                assert(accept_step(idv[t as int], sa, sb, ok, user@, doc@, *snap, now));
                            }
                        },
                        Err(_) => {
                            proof {
                                let sb = accept_state(all.items@, reqs@, qsts@, groups@, *marks, strings_v(taken@), strings_v(used@));
                                assert(sb =~= sa);
                                if sa.all[i as int].status == ProposalStatus::Proposed {
                                    assert(acceptance(sa.all[i as int], rr, user@, doc@, sa.reqs, sb.reqs, sa.qsts, sb.qsts, sa.groups, sb.groups,
                                        sa.marks, sb.marks, sa.taken, sa.used, now));
                                }
                                assert(accept_step(idv[t as int], sa, sb, ok, user@, doc@, *snap, now));
                            }
                        },
                    }
                } else {
                    proof {
                        assert(!spans_in(*snap, sa.all[i as int].spans@));
                        assert(accept_step(idv[t as int], sa, sa, ok, user@, doc@, *snap, now));
                    }
                }
            },
            None => {
                proof {
                    assert(accept_step(idv[t as int], sa, sa, ok, user@, doc@, *snap, now));
                }
            },
        }
        proof {
            let sb = accept_state(all.items@, reqs@, qsts@, groups@, *marks, strings_v(taken@), strings_v(used@));
            assert(accept_step(idv[t as int], sa, sb, ok, user@, doc@, *snap, now));
            assert(idv.take(t as int + 1).drop_last() =~= idv.take(t as int));
            let ids1 = idv.take(t as int + 1);
            let states1 = states.push(sb);
            let oks1 = oks.push(ok);
            assert(oks1.drop_last() =~= oks);
            assert forall|k: int| #![trigger oks1[k]] 0 <= k < ids1.len() implies accept_step(ids1[k], states1[k], states1[k + 1], oks1[k], user@, doc@,
                *snap, now) by {
                if k < t {
                    assert(oks1[k] == oks[k]);
                    assert(ids1[k] == idv.take(t as int)[k]);
                    assert(accept_step(idv.take(t as int)[k], states[k], states[k + 1], oks[k], user@, doc@, *snap, now));
                }
            }
            states = states1;
            oks = oks1;
        }
        t += 1;
    }
    proof {
        assert(idv.take(t as int) =~= idv);
        assert(idv == pending_ids(a0));
        assert(accept_trace(pending_ids(a0), states, oks, user@, doc@, *snap, now));
    }
    n
}

proof fn lemma_accepted_count_same(ps: Seq<Proposal>, k: int)
    ensures
        accepted_count(ps, ps, k) == 0,
    decreases k,
{
    if k > 0 {
        lemma_accepted_count_same(ps, k - 1);
    }
}

} // verus!
