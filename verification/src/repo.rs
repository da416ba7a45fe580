//! GitHub repo names, refs and file framing. Running `gh` and `git` is the caller's; the
//! library decides what to ask and reads what came back.

use crate::text::{chars_of, copy_str, decimal, decimal_u64, push_char, push_str, string_of, seq_eq, strings_v};
use vstd::prelude::*;

verus! {

broadcast use vstd::string::group_string_axioms;

// ---------- text helpers ----------

/// `s` with every trailing copy of `suf` removed (`str::trim_end_matches`).
pub open spec fn trim_end_all(s: Seq<char>, suf: Seq<char>) -> Seq<char>
    decreases s.len(),
{
    if suf.len() > 0 && s.len() >= suf.len() && s.subrange(s.len() - suf.len(), s.len() as int) == suf {
        trim_end_all(s.subrange(0, s.len() - suf.len()), suf)
    } else {
        s
    }
}

/// `s` with every leading copy of `pre` removed (`str::trim_start_matches`).
pub open spec fn trim_start_all(s: Seq<char>, pre: Seq<char>) -> Seq<char>
    decreases s.len(),
{
    if pre.len() > 0 && s.len() >= pre.len() && s.subrange(0, pre.len() as int) == pre {
        trim_start_all(s.subrange(pre.len() as int, s.len() as int), pre)
    } else {
        s
    }
}

/// The pieces of `s` between `/`s (`str::split('/')`; at least one piece).
pub open spec fn split_slash(s: Seq<char>) -> Seq<Seq<char>>
    decreases s.len(),
{
    if s.len() == 0 {
        seq![Seq::empty()]
    } else {
        let p = split_slash(s.drop_last());
        if s.last() == '/' {
            p.push(Seq::empty())
        } else {
            p.update(p.len() - 1, p.last().push(s.last()))
        }
    }
}

/// `t` occurs in `s` at position `i`.
pub open spec fn occurs_at(s: Seq<char>, t: Seq<char>, i: int) -> bool {
    0 <= i && i + t.len() <= s.len() && s.subrange(i, i + t.len()) == t
}

/// `t` occurs in `s`.
pub open spec fn contains_sub(s: Seq<char>, t: Seq<char>) -> bool {
    exists|i: int| #[trigger] occurs_at(s, t, i)
}

proof fn lemma_split_nonempty(s: Seq<char>)
    ensures
        split_slash(s).len() >= 1,
    decreases s.len(),
{
    if s.len() > 0 {
        lemma_split_nonempty(s.drop_last());
    }
}

fn ends_with(v: &Vec<char>, n: usize, suf: &Vec<char>) -> (r: bool)
    requires
        n <= v@.len(),
    ensures
        r == (suf@.len() > 0 && n >= suf@.len() && v@.subrange(n - suf@.len(), n as int) == suf@),
{
    if suf.len() == 0 || n < suf.len() {
        return false;
    }
    let base = n - suf.len();
    let mut i: usize = 0;
    while i < suf.len()
        invariant
            i <= suf@.len(),
            base + suf@.len() == n <= v@.len(),
            forall|j: int| 0 <= j < i ==> v@[base + j] == suf@[j],
        decreases suf@.len() - i,
    {
        if v[base + i] != suf[i] {
            proof {
                assert(v@.subrange(base as int, n as int)[i as int] != suf@[i as int]);
            }
            return false;
        }
        i += 1;
    }
    proof {
        assert(v@.subrange(base as int, n as int) =~= suf@);
    }
    true
}

fn trim_end_chars_all(v: &Vec<char>, suf: &str) -> (r: Vec<char>)
    ensures
        r@ == trim_end_all(v@, suf@),
{
    let sv = chars_of(suf);
    let mut n = v.len();
    proof {
        assert(v@.subrange(0, n as int) =~= v@);
    }
    while ends_with(v, n, &sv)
        invariant
            n <= v@.len(),
            sv@ == suf@,
            trim_end_all(v@, suf@) == trim_end_all(v@.subrange(0, n as int), suf@),
        decreases n,
    {
        proof {
            let s = v@.subrange(0, n as int);
            assert(s.subrange(s.len() - sv@.len(), s.len() as int) =~= v@.subrange(n - sv@.len(), n as int));
            assert(s.subrange(0, s.len() - sv@.len()) =~= v@.subrange(0, n - sv@.len()));
        }
        n = n - sv.len();
    }
    proof {
        let s = v@.subrange(0, n as int);
        if sv@.len() > 0 && n >= sv@.len() {
            assert(s.subrange(s.len() - sv@.len(), s.len() as int) =~= v@.subrange(n - sv@.len(), n as int));
        }
    }
    crate::segment::sub_chars(v, 0, n)
}

fn starts_with_at(v: &Vec<char>, a: usize, pre: &Vec<char>) -> (r: bool)
    requires
        a <= v@.len(),
    ensures
        r == (pre@.len() > 0 && v@.len() - a >= pre@.len() && v@.subrange(a as int, a + pre@.len()) == pre@),
{
    if pre.len() == 0 || v.len() - a < pre.len() {
        return false;
    }
    let vl = v.len();
    let mut i: usize = 0;
    while i < pre.len()
        invariant
            i <= pre@.len(),
            vl == v@.len(),
            a + pre@.len() <= v@.len(),
            forall|j: int| 0 <= j < i ==> v@[a + j] == pre@[j],
        decreases pre@.len() - i,
    {
        if v[a + i] != pre[i] {
            proof {
                assert(v@.subrange(a as int, a + pre@.len())[i as int] != pre@[i as int]);
            }
            return false;
        }
        i += 1;
    }
    proof {
        assert(v@.subrange(a as int, a + pre@.len()) =~= pre@);
    }
    true
}

fn trim_start_chars_all(v: &Vec<char>, pre: &str) -> (r: Vec<char>)
    ensures
        r@ == trim_start_all(v@, pre@),
{
    let pv = chars_of(pre);
    let vl = v.len();
    let mut a: usize = 0;
    proof {
        assert(v@.subrange(0, v@.len() as int) =~= v@);
    }
    while starts_with_at(v, a, &pv)
        invariant
            a <= v@.len(),
            vl == v@.len(),
            pv@ == pre@,
            trim_start_all(v@, pre@) == trim_start_all(v@.subrange(a as int, v@.len() as int), pre@),
        decreases v@.len() - a,
    {
        proof {
            let s = v@.subrange(a as int, v@.len() as int);
            assert(s.subrange(0, pv@.len() as int) =~= v@.subrange(a as int, a + pv@.len()));
            assert(s.subrange(pv@.len() as int, s.len() as int) =~= v@.subrange(a + pv@.len(), v@.len() as int));
        }
        a = a + pv.len();
    }
    proof {
        let s = v@.subrange(a as int, v@.len() as int);
        if pv@.len() > 0 && s.len() >= pv@.len() {
            assert(s.subrange(0, pv@.len() as int) =~= v@.subrange(a as int, a + pv@.len()));
        }
    }
    crate::segment::sub_chars(v, a, v.len())
}

fn split_slash_exec(v: &Vec<char>) -> (r: Vec<Vec<char>>)
    ensures
        r@.map_values(|p: Vec<char>| p@) == split_slash(v@),
{
    let mut out: Vec<Vec<char>> = Vec::new();
    let mut cur: Vec<char> = Vec::new();
    let mut i: usize = 0;
    while i < v.len()
        invariant
            i <= v@.len(),
            out@.map_values(|p: Vec<char>| p@).push(cur@) == split_slash(v@.take(i as int)),
        decreases v@.len() - i,
    {
        proof {
            assert(v@.take(i as int + 1).drop_last() =~= v@.take(i as int));
            lemma_split_nonempty(v@.take(i as int));
        }
        if v[i] == '/' {
            let ghost o0 = out@;
            out.push(cur);
            cur = Vec::new();
            proof {
                assert(out@.map_values(|p: Vec<char>| p@) =~= o0.map_values(|p: Vec<char>| p@).push(o0.map_values(|p: Vec<char>| p@).push(out@.last()@).last()));
            }
        } else {
            let ghost c0 = cur@;
            cur.push(v[i]);
            proof {
                let m = out@.map_values(|p: Vec<char>| p@);
                assert(m.push(cur@) =~= m.push(c0).update(m.len() as int, m.push(c0).last().push(v@[i as int])));
            }
        }
        i += 1;
    }
    proof {
        assert(v@.take(v@.len() as int) =~= v@);
    }
    let ghost o0 = out@;
    out.push(cur);
    proof {
        assert(out@.map_values(|p: Vec<char>| p@) =~= o0.map_values(|p: Vec<char>| p@).push(out@.last()@));
    }
    out
}

fn contains_exec(v: &Vec<char>, t: &str) -> (r: bool)
    ensures
        r == contains_sub(v@, t@),
{
    let tv = chars_of(t);
    if tv.len() > v.len() {
        return false;
    }
    let mut i: usize = 0;
    while i <= v.len() - tv.len()
        invariant
            tv@ == t@,
            tv@.len() <= v@.len(),
            i <= v@.len() - tv@.len() + 1,
            forall|j: int| 0 <= j < i ==> !#[trigger] occurs_at(v@, tv@, j),
        decreases v@.len() - i,
    {
        if tv.len() == 0 {
            proof {
                assert(v@.subrange(0, 0) =~= tv@);
                assert(occurs_at(v@, tv@, 0));
            }
            return true;
        }
        if starts_with_at(v, i, &tv) {
            proof {
                assert(occurs_at(v@, tv@, i as int));
            }
            return true;
        }
        i += 1;
    }
    proof {
        assert forall|j: int| !#[trigger] occurs_at(v@, t@, j) by {
            if 0 <= j && j + tv@.len() <= v@.len() {
                assert(j < i);
            }
        }
    }
    false
}

// ---------- github names ----------

/// Owner and name from a `owner/name` text or a github.com URL.
pub open spec fn spec_owner_name(github: Seq<char>) -> Option<(Seq<char>, Seq<char>)> {
    let parts = split_slash(trim_end_all(trim_end_all(crate::blocks::trim_ws(github), ".git"@), seq!['/']));
    if parts.len() == 2 {
        Some((parts[0], parts[1]))
    } else if parts.len() >= 2 && contains_sub(github, "github.com"@) {
        Some((parts[parts.len() - 2], parts[parts.len() - 1]))
    } else {
        None
    }
}

pub open spec fn spec_github_url(github: Seq<char>) -> Option<Seq<char>> {
    match spec_owner_name(github) {
        Some((owner, name)) => Some("https://github.com/"@ + owner + seq!['/'] + name + ".git"@),
        None => None,
    }
}

pub open spec fn bad_name_message(github: Seq<char>) -> Seq<char> {
    "expected `owner/name`, got `"@ + github + seq!['`']
}

/// `owner/name` (or a github.com URL) → clone URL.
pub fn github_url(github: &str) -> (r: Result<String, String>)
    ensures
        match spec_github_url(github@) {
            Some(u) => r matches Ok(s) && s@ == u,
            None => r matches Err(m) && m@ == bad_name_message(github@),
        },
{
    let v = chars_of(github);
    let t = crate::blocks::trim_chars(&v);
    let t1 = trim_end_chars_all(&t, ".git");
    let t2 = trim_end_chars_all(&t1, "/");
    proof {
        reveal_strlit("/");
        assert("/"@ =~= seq!['/']);
    }
    let parts = split_slash_exec(&t2);
    let ghost pv = parts@.map_values(|p: Vec<char>| p@);
    let n = parts.len();
    let pick: Option<(usize, usize)> = if n == 2 {
        Some((0, 1))
    } else if n >= 2 && contains_exec(&v, "github.com") {
        Some((n - 2, n - 1))
    } else {
        None
    };
    match pick {
        Some((a, b)) => {
            let mut s = copy_str("https://github.com/");
            push_str(&mut s, string_of(parts[a].as_slice()).as_str());
            push_char(&mut s, '/');
            push_str(&mut s, string_of(parts[b].as_slice()).as_str());
            push_str(&mut s, ".git");
            proof {
                assert(pv[a as int] == parts@[a as int]@);
                assert(pv[b as int] == parts@[b as int]@);
            }
            Ok(s)
        },
        None => {
            let mut m = copy_str("expected `owner/name`, got `");
            push_str(&mut m, github);
            push_char(&mut m, '`');
            Err(m)
        },
    }
}

pub open spec fn spec_github_slug(github: Seq<char>) -> Option<Seq<char>> {
    match spec_github_url(github) {
        Some(u) => Some(trim_end_all(trim_start_all(u, "https://github.com/"@), ".git"@)),
        None => None,
    }
}

/// Normalize to `owner/name`.
pub fn github_slug(github: &str) -> (r: Result<String, String>)
    ensures
        match spec_github_slug(github@) {
            Some(u) => r matches Ok(s) && s@ == u,
            None => r matches Err(m) && m@ == bad_name_message(github@),
        },
{
    match github_url(github) {
        Ok(url) => {
            let uv = chars_of(url.as_str());
            let a = trim_start_chars_all(&uv, "https://github.com/");
            let b = trim_end_chars_all(&a, ".git");
            Ok(string_of(b.as_slice()))
        },
        Err(m) => Err(m),
    }
}

/// An owner or repo name part: no `/` and no whitespace.
pub open spec fn plain_part(s: Seq<char>) -> bool {
    forall|i: int| 0 <= i < s.len() ==> s[i] != '/' && !crate::segment::is_ws(#[trigger] s[i])
}

proof fn lemma_split_plain(q: Seq<char>)
    requires
        forall|i: int| 0 <= i < q.len() ==> #[trigger] q[i] != '/',
    ensures
        split_slash(q) == seq![q],
    decreases q.len(),
{
    if q.len() > 0 {
        let d = q.drop_last();
        assert forall|i: int| 0 <= i < d.len() implies #[trigger] d[i] != '/' by {
            assert(d[i] == q[i]);
        }
        lemma_split_plain(d);
        assert(q.last() == q[q.len() - 1]);
        assert(d.push(q.last()) =~= q);
        assert(seq![d].update(0, d.push(q.last())) =~= seq![q]);
    } else {
        assert(q =~= Seq::<char>::empty());
    }
}

proof fn lemma_split_join(p: Seq<char>, q: Seq<char>)
    requires
        forall|i: int| 0 <= i < q.len() ==> #[trigger] q[i] != '/',
    ensures
        split_slash(p + seq!['/'] + q) == split_slash(p).push(q),
    decreases q.len(),
{
    let s = p + seq!['/'] + q;
    if q.len() == 0 {
        assert(s.drop_last() =~= p);
        assert(s.last() == '/');
        assert(q =~= Seq::<char>::empty());
    } else {
        let d = q.drop_last();
        assert forall|i: int| 0 <= i < d.len() implies #[trigger] d[i] != '/' by {
            assert(d[i] == q[i]);
        }
        lemma_split_join(p, d);
        assert(s.drop_last() =~= p + seq!['/'] + d);
        assert(s.last() == q[q.len() - 1]);
        lemma_split_nonempty(p + seq!['/'] + d);
        assert(d.push(q.last()) =~= q);
        assert(split_slash(p).push(d).update(split_slash(p).len() as int, d.push(q.last())) =~= split_slash(p).push(q));
    }
}

/// A text ending in `/` and a plain name that does not end in `.git` has no `.git` to trim.
proof fn lemma_no_git(y: Seq<char>, n: Seq<char>)
    requires
        n.len() > 0,
        plain_part(n),
        !(n.len() >= 4 && n.subrange(n.len() - 4, n.len() as int) == ".git"@),
        y.len() >= n.len() + 1,
        y.subrange(y.len() - n.len() - 1, y.len() as int) == seq!['/'] + n,
    ensures
        trim_end_all(y, ".git"@) == y,
{
    reveal_strlit(".git");
    if y.len() >= 4 {
        let w = y.subrange(y.len() - 4, y.len() as int);
        if n.len() >= 4 {
            assert(w =~= n.subrange(n.len() - 4, n.len() as int)) by {
                assert forall|i: int| 0 <= i < 4 implies w[i] == n.subrange(n.len() - 4, n.len() as int)[i] by {
                    assert(w[i] == y[y.len() - 4 + i]);
                    assert(y[y.len() - 4 + i] == y.subrange(y.len() - n.len() - 1, y.len() as int)[n.len() + 1 - 4 + i]);
                }
            }
        } else {
            let k = 3 - n.len();
            assert(w[k] == y[y.len() - 1 - n.len()]);
            assert(y[y.len() - 1 - n.len()] == y.subrange(y.len() - n.len() - 1, y.len() as int)[0]);
            assert(w[k] == '/');
            assert(".git"@[k] != '/');
            assert(w != ".git"@);
        }
    }
}

/// Registering `owner/name` and registering its clone URL come to the same repo: both give the
/// URL `https://github.com/owner/name.git` and the slug `owner/name` (owner and name non-empty,
/// without `/` or whitespace, the name not ending in `.git`).
pub proof fn law_github_round_trip(o: Seq<char>, n: Seq<char>)
    requires
        o.len() > 0,
        n.len() > 0,
        plain_part(o),
        plain_part(n),
        !(n.len() >= 4 && n.subrange(n.len() - 4, n.len() as int) == ".git"@),
    ensures
        ({
            let x = o + seq!['/'] + n;
            let u = "https://github.com/"@ + x + ".git"@;
            &&& spec_github_url(x) == Some(u)
            &&& spec_github_slug(x) == Some(x)
            &&& spec_github_url(u) == Some(u)
            &&& spec_github_slug(u) == Some(x)
        }),
{
    reveal_strlit(".git");
    reveal_strlit("https://github.com/");
    reveal_strlit("github.com");
    reveal_strlit("https://github.com");
    let x = o + seq!['/'] + n;
    let pre = "https://github.com/"@;
    let u1 = pre + x;
    let u = u1 + ".git"@;
    assert(u =~= "https://github.com/"@ + x + ".git"@);
    assert forall|i: int| 0 <= i < o.len() implies #[trigger] o[i] != '/' by {}
    assert forall|i: int| 0 <= i < n.len() implies #[trigger] n[i] != '/' by {}
    // x: nothing to trim, two parts
    assert(x[0] == o[0] && !crate::segment::is_ws(x[0]));
    assert(x.last() == n[n.len() - 1] && !crate::segment::is_ws(x.last()));
    assert(crate::blocks::lead_ws(x) == 0);
    assert(crate::blocks::trail_ws(x) == 0);
    assert(crate::blocks::trim_ws(x) =~= x);
    assert(x.subrange(x.len() - n.len() - 1, x.len() as int) =~= seq!['/'] + n);
    lemma_no_git(x, n);
    assert(trim_end_all(x, seq!['/']) == x) by {
        assert(x.last() != '/');
        assert(x.subrange(x.len() - 1, x.len() as int) =~= seq![x.last()]);
        assert(seq![x.last()][0] != seq!['/'][0]);
    }
    lemma_split_plain(o);
    lemma_split_join(o, n);
    assert(split_slash(x) =~= seq![o, n]);
    assert(spec_owner_name(x) == Some((o, n)));
    assert(spec_github_url(x) == Some(pre + o + seq!['/'] + n + ".git"@));
    assert(pre + o + seq!['/'] + n + ".git"@ =~= u);
    // the URL: trims to itself, and its last two parts are owner and name
    assert(u[0] == 'h' && !crate::segment::is_ws(u[0]));
    assert(u.last() == 't' && !crate::segment::is_ws(u.last()));
    assert(crate::blocks::lead_ws(u) == 0);
    assert(crate::blocks::trail_ws(u) == 0);
    assert(crate::blocks::trim_ws(u) =~= u);
    assert(u.subrange(u.len() - 4, u.len() as int) =~= ".git"@);
    assert(u.subrange(0, u.len() - 4) =~= u1);
    assert(u1.subrange(u1.len() - n.len() - 1, u1.len() as int) =~= seq!['/'] + n);
    lemma_no_git(u1, n);
    assert(trim_end_all(u, ".git"@) == u1);
    assert(trim_end_all(u1, seq!['/']) == u1) by {
        assert(u1.subrange(u1.len() - 1, u1.len() as int) =~= seq![u1.last()]);
        assert(u1.last() == n[n.len() - 1]);
        assert(seq![u1.last()][0] != seq!['/'][0]);
    }
    let host = "https://github.com"@;
    assert(pre =~= host + seq!['/']);
    assert(u1 =~= (host + seq!['/'] + o) + seq!['/'] + n);
    lemma_split_join(host + seq!['/'] + o, n);
    lemma_split_join(host, o);
    lemma_split_nonempty(host);
    let parts = split_slash(u1);
    assert(parts == split_slash(host).push(o).push(n));
    assert(parts[parts.len() - 2] == o && parts[parts.len() - 1] == n);
    assert(occurs_at(u, "github.com"@, 8)) by {
        assert(u.subrange(8, 18) =~= "github.com"@);
    }
    assert(spec_owner_name(u) == Some((o, n)));
    // the slug: strip the host prefix once and the `.git` suffix once
    let rest = x + ".git"@;
    assert(u.subrange(0, pre.len() as int) =~= pre);
    assert(u.subrange(pre.len() as int, u.len() as int) =~= rest);
    assert(trim_start_all(rest, pre) == rest) by {
        if rest.len() >= pre.len() && rest.subrange(0, pre.len() as int) == pre {
            assert(rest[6] == '/' && rest[7] == '/') by {
                assert(rest.subrange(0, pre.len() as int)[6] == pre[6]);
                assert(rest.subrange(0, pre.len() as int)[7] == pre[7]);
            }
            if o.len() == 6 {
                assert(rest[7] == n[0]);
            } else if o.len() > 6 {
                assert(rest[6] == o[6]);
            } else if o.len() == 7 {
            } else {
                assert(rest[6] == x[6]);
                if 6 < x.len() {
                    assert(x[6] == n[6 - o.len() - 1]);
                }
            }
        }
    }
    assert(trim_start_all(u, pre) == rest);
    assert(rest.subrange(rest.len() - 4, rest.len() as int) =~= ".git"@);
    assert(rest.subrange(0, rest.len() - 4) =~= x);
    assert(trim_end_all(rest, ".git"@) == x);
}

/// `owner/name` for a github.com URL, if it is one.
pub fn slug_of_url(url: &str) -> (r: Option<String>)
    ensures
        match r {
            Some(s) => contains_sub(url@, "github.com"@) && spec_github_slug(url@) == Some(s@),
            None => !contains_sub(url@, "github.com"@) || spec_github_slug(url@) is None,
        },
{
    match github_slug(url) {
        Ok(s) => {
            let v = chars_of(url);
            if contains_exec(&v, "github.com") {
                Some(s)
            } else {
                None
            }
        },
        Err(_) => None,
    }
}

/// github.com URLs go through gh/git; local `file://` and other hosts go through libgit2.
pub fn is_github(url: &str) -> (r: bool)
    ensures
        r == contains_sub(url@, "github.com"@),
{
    contains_exec(&chars_of(url), "github.com")
}

// ---------- refs ----------

/// The remote-tracking ref of a branch.
pub fn branch_ref(branch: &str) -> (r: String)
    ensures
        r@ == "refs/remotes/origin/"@ + branch@,
{
    let mut s = copy_str("refs/remotes/origin/");
    push_str(&mut s, branch);
    s
}

/// The ref of a PR's head.
pub fn pr_ref(n: u64) -> (r: String)
    ensures
        r@ == "refs/pull/"@ + decimal(n as nat) + "/head"@,
{
    let mut s = copy_str("refs/pull/");
    push_str(&mut s, decimal_u64(n).as_str());
    push_str(&mut s, "/head");
    s
}

// ---------- gh ----------

pub open spec fn gh_missing_message() -> Seq<char> {
    "kansa needs the GitHub CLI: install `gh` (https://cli.github.com) and run `gh auth login`"@
}

pub open spec fn gh_logged_out_message() -> Seq<char> {
    "GitHub CLI is not logged in \u{2014} run `gh auth login` and try again"@
}

/// Whether work that needs the GitHub CLI may go on, given whether `gh` is logged in and
/// whether it is installed at all; the error says what to do.
pub fn require_gh(available: bool, installed: bool) -> (r: Result<(), String>)
    ensures
        available ==> r is Ok,
        !available && installed ==> (r matches Err(m) && m@ == gh_logged_out_message()),
        !available && !installed ==> (r matches Err(m) && m@ == gh_missing_message()),
{
    if available {
        Ok(())
    } else if installed {
        Err(copy_str("GitHub CLI is not logged in \u{2014} run `gh auth login` and try again"))
    } else {
        Err(copy_str("kansa needs the GitHub CLI: install `gh` (https://cli.github.com) and run `gh auth login`"))
    }
}

/// The arguments joined with spaces, as a `gh` command line shows them.
pub open spec fn join_space_args(args: Seq<&str>) -> Seq<char>
    decreases args.len(),
{
    if args.len() == 0 {
        Seq::empty()
    } else if args.len() == 1 {
        args[0]@
    } else {
        join_space_args(args.drop_last()) + seq![' '] + args.last()@
    }
}

/// The message for a failed `gh` run: the command and what it wrote to stderr, trimmed.
pub fn gh(args: &Vec<&str>, stderr: &str) -> (r: String)
    ensures
        r@ == "gh "@ + join_space_args(args@) + " failed: "@ + crate::blocks::trim_ws(stderr@),
{
    let mut s = copy_str("gh ");
    let ghost base = s@;
    let mut i: usize = 0;
    while i < args.len()
        invariant
            i <= args@.len(),
            s@ == base + join_space_args(args@.take(i as int)),
        decreases args@.len() - i,
    {
        if i > 0 {
            push_char(&mut s, ' ');
        }
        push_str(&mut s, args[i]);
        proof {
            assert(args@.take(i as int + 1).drop_last() =~= args@.take(i as int));
            assert(s@ =~= base + join_space_args(args@.take(i as int + 1)));
        }
        i += 1;
    }
    proof {
        assert(args@.take(args@.len() as int) =~= args@);
    }
    push_str(&mut s, " failed: ");
    let t = crate::blocks::trim_chars(&chars_of(stderr));
    push_str(&mut s, string_of(t.as_slice()).as_str());
    s
}

// ---------- PR files ----------

/// The pieces of `s` between `c`s.
pub open spec fn split_on(s: Seq<char>, c: char) -> Seq<Seq<char>>
    decreases s.len(),
{
    if s.len() == 0 {
        seq![Seq::empty()]
    } else {
        let p = split_on(s.drop_last(), c);
        if s.last() == c {
            p.push(Seq::empty())
        } else {
            p.update(p.len() - 1, p.last().push(s.last()))
        }
    }
}

pub open spec fn strip_cr(l: Seq<char>) -> Seq<char> {
    if l.len() > 0 && l.last() == '\r' { l.drop_last() } else { l }
}

/// The lines of `t` (`str::lines`): split at `\n`, a `\r` before it dropped, no empty last line.
pub open spec fn lines_of(t: Seq<char>) -> Seq<Seq<char>> {
    let ps = split_on(t, '\n');
    let init = ps.drop_last().map_values(|l: Seq<char>| strip_cr(l));
    if ps.last().len() == 0 { init } else { init.push(ps.last()) }
}

proof fn lemma_split_on_nonempty(s: Seq<char>, c: char)
    ensures
        split_on(s, c).len() >= 1,
    decreases s.len(),
{
    if s.len() > 0 {
        lemma_split_on_nonempty(s.drop_last(), c);
    }
}

fn lines_exec(v: &Vec<char>) -> (r: Vec<Vec<char>>)
    ensures
        r@.map_values(|l: Vec<char>| l@) == lines_of(v@),
{
    let mut out: Vec<Vec<char>> = Vec::new();
    let mut cur: Vec<char> = Vec::new();
    let mut i: usize = 0;
    while i < v.len()
        invariant
            i <= v@.len(),
            out@.map_values(|l: Vec<char>| l@) == split_on(v@.take(i as int), '\n').drop_last().map_values(|l: Seq<char>| strip_cr(l)),
            cur@ == split_on(v@.take(i as int), '\n').last(),
        decreases v@.len() - i,
    {
        proof {
            assert(v@.take(i as int + 1).drop_last() =~= v@.take(i as int));
            lemma_split_on_nonempty(v@.take(i as int), '\n');
        }
        let ghost p = split_on(v@.take(i as int), '\n');
        if v[i] == '\n' {
            let n = cur.len();
            let line = if n > 0 && cur[n - 1] == '\r' {
                crate::segment::sub_chars(&cur, 0, n - 1)
            } else {
                crate::segment::sub_chars(&cur, 0, n)
            };
            proof {
                assert(cur@.subrange(0, n as int) =~= cur@);
                if n > 0 {
                    assert(cur@.subrange(0, n - 1) =~= cur@.drop_last());
                }
            }
            let ghost o0 = out@;
            out.push(line);
            cur = Vec::new();
            proof {
                let q = split_on(v@.take(i as int + 1), '\n');
                assert(q == p.push(Seq::empty()));
                assert(q.drop_last() =~= p);
                assert(p =~= p.drop_last().push(p.last()));
                assert(out@.map_values(|l: Vec<char>| l@) =~= o0.map_values(|l: Vec<char>| l@).push(strip_cr(p.last())));
                assert(p.map_values(|l: Seq<char>| strip_cr(l)) =~= p.drop_last().map_values(|l: Seq<char>| strip_cr(l)).push(strip_cr(p.last())));
            }
        } else {
            cur.push(v[i]);
            proof {
                let q = split_on(v@.take(i as int + 1), '\n');
                assert(q == p.update(p.len() - 1, p.last().push(v@[i as int])));
                assert(q.drop_last() =~= p.drop_last());
            }
        }
        i += 1;
    }
    proof {
        assert(v@.take(v@.len() as int) =~= v@);
        lemma_split_on_nonempty(v@, '\n');
    }
    if cur.len() > 0 {
        let ghost o0 = out@;
        out.push(cur);
        proof {
            assert(out@.map_values(|l: Vec<char>| l@) =~= o0.map_values(|l: Vec<char>| l@).push(out@.last()@));
        }
    }
    out
}

/// Files changed by a PR, from `gh pr view --json files -q .files[].path` output: every
/// non-blank line, trimmed.
pub open spec fn spec_changed_files(ls: Seq<Seq<char>>) -> Seq<Seq<char>>
    decreases ls.len(),
{
    if ls.len() == 0 {
        Seq::empty()
    } else {
        let t = crate::blocks::trim_ws(ls.last());
        if t.len() == 0 { spec_changed_files(ls.drop_last()) } else { spec_changed_files(ls.drop_last()).push(t) }
    }
}

/// The file list in `gh pr view` output.
pub fn pr_changed_files(out: &str) -> (r: Vec<String>)
    ensures
        strings_v(r@) == spec_changed_files(lines_of(out@)),
{
    let ls = lines_exec(&chars_of(out));
    let ghost lv = ls@.map_values(|l: Vec<char>| l@);
    let mut res: Vec<String> = Vec::new();
    let mut i: usize = 0;
    while i < ls.len()
        invariant
            i <= ls@.len(),
            lv == ls@.map_values(|l: Vec<char>| l@),
            strings_v(res@) == spec_changed_files(lv.take(i as int)),
        decreases ls@.len() - i,
    {
        proof {
            assert(lv.take(i as int + 1).drop_last() =~= lv.take(i as int));
            assert(lv.take(i as int + 1).last() == ls@[i as int]@);
        }
        let t = crate::blocks::trim_chars(&ls[i]);
        if t.len() > 0 {
            let ghost r0 = res@;
            res.push(string_of(t.as_slice()));
            proof {
                assert(strings_v(res@) =~= strings_v(r0).push(t@));
            }
        }
        i += 1;
    }
    proof {
        assert(lv.take(lv.len() as int) =~= lv);
    }
    res
}

// ---------- git-LFS pointers ----------

pub const LFS_VERSION: &'static str = "version https://git-lfs.github.com/spec/";

/// `std::str::from_utf8(bytes)`: the text, when the bytes are valid UTF-8.
#[verifier::external_body]
fn utf8_text(bytes: &[u8]) -> (r: Option<String>)
    ensures
        r is Some <==> vstd::utf8::valid_utf8(bytes@),
        r matches Some(s) ==> s@ == vstd::utf8::decode_utf8(bytes@),
{
    std::str::from_utf8(bytes).ok().map(|s| s.to_string())
}

/// The first line that starts with `oid sha256:`, the rest of it trimmed.
pub open spec fn first_oid(ls: Seq<Seq<char>>) -> Option<Seq<char>>
    decreases ls.len(),
{
    if ls.len() == 0 {
        None
    } else if ls[0].len() >= 11 && ls[0].take(11) == "oid sha256:"@ {
        Some(crate::blocks::trim_ws(ls[0].skip(11)))
    } else {
        first_oid(ls.drop_first())
    }
}

/// The `sha256` oid of a git-LFS pointer file; `None` for regular content.
pub open spec fn spec_lfs_oid(bytes: Seq<u8>) -> Option<Seq<char>> {
    let pre = vstd::utf8::encode_utf8(LFS_VERSION@);
    if !(bytes.len() >= pre.len() && bytes.take(pre.len() as int) == pre) {
        None
    } else if !vstd::utf8::valid_utf8(bytes) {
        None
    } else {
        first_oid(lines_of(vstd::utf8::decode_utf8(bytes)))
    }
}

/// `sha256` oid of a git-LFS pointer file, or None for regular content.
pub fn lfs_pointer_oid(bytes: &[u8]) -> (r: Option<String>)
    ensures
        match r {
            Some(s) => spec_lfs_oid(bytes@) == Some(s@),
            None => spec_lfs_oid(bytes@) is None,
        },
{
    let pre = LFS_VERSION.as_bytes();
    let n = pre.len();
    if bytes.len() < n {
        return None;
    }
    let mut i: usize = 0;
    while i < n
        invariant
            i <= n,
            n == pre@.len(),
            n <= bytes@.len(),
            pre@ == vstd::utf8::encode_utf8(LFS_VERSION@),
            forall|j: int| 0 <= j < i ==> bytes@[j] == pre@[j],
        decreases n - i,
    {
        if bytes[i] != pre[i] {
            proof {
                assert(bytes@.take(n as int)[i as int] != pre@[i as int]);
                assert(pre@ == vstd::utf8::encode_utf8(LFS_VERSION@));
                assert(bytes@.take(n as int) != pre@);
                assert(spec_lfs_oid(bytes@) is None);
            }
            return None;
        }
        i += 1;
    }
    proof {
        assert(bytes@.take(n as int) =~= pre@);
    }
    let text = match utf8_text(bytes) {
        Some(t) => t,
        None => {
            return None;
        },
    };
    let ls = lines_exec(&chars_of(text.as_str()));
    let ghost lv = ls@.map_values(|l: Vec<char>| l@);
    proof {
        assert(lv == lines_of(vstd::utf8::decode_utf8(bytes@)));
    }
    let mut k: usize = 0;
    let tag = chars_of("oid sha256:");
    proof {
        reveal_strlit("oid sha256:");
        assert(lv.skip(0) =~= lv);
    }
    while k < ls.len()
        invariant
            k <= ls@.len(),
            lv == ls@.map_values(|l: Vec<char>| l@),
            tag@ == "oid sha256:"@,
            tag@.len() == 11,
            n == pre@.len(),
            pre@ == vstd::utf8::encode_utf8(LFS_VERSION@),
            n <= bytes@.len(),
            bytes@.take(n as int) == pre@,
            vstd::utf8::valid_utf8(bytes@),
            lv == lines_of(vstd::utf8::decode_utf8(bytes@)),
            first_oid(lv) == first_oid(lv.skip(k as int)),
        decreases ls@.len() - k,
    {
        proof {
            assert(lv.skip(k as int)[0] == ls@[k as int]@);
            assert(lv.skip(k as int).drop_first() =~= lv.skip(k as int + 1));
        }
        let l = &ls[k];
        if l.len() >= 11 && starts_with_at(l, 0, &tag) {
            proof {
                assert(l@.subrange(0, 11) =~= l@.take(11));
            }
            let rest = crate::segment::sub_chars(l, 11, l.len());
            proof {
                assert(rest@ =~= l@.skip(11));
            }
            let t = crate::blocks::trim_chars(&rest);
            proof {
                assert(first_oid(lv.skip(k as int)) == Some(crate::blocks::trim_ws(l@.skip(11))));
                assert(lines_of(vstd::utf8::decode_utf8(bytes@)) == lv);
                assert(spec_lfs_oid(bytes@) == Some(t@));
            }
            return Some(string_of(t.as_slice()));
        } else {
            proof {
                if l@.len() >= 11 {
                    assert(l@.subrange(0, 11) =~= l@.take(11));
                }
            }
        }
        k += 1;
    }
    None
}

} // verus!
