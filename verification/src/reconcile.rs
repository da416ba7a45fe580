//! Reconciliation: when a tracked doc changes, map every classified span of the old snapshot
//! onto the new one and propose a verdict per span. Humans confirm; anchors are never
//! rewritten silently.
//!
//! Similarities are exact fractions. Candidate pairs are ranked by the similarity scaled by
//! `SCORE_SCALE` (rounded down) less `POSITION_PENALTY` per position of distance, so that
//! nearby matches win among equally similar ones.

use crate::segment::{is_ws, is_ws_exec, ws_runs, scan_runs, Block};
use crate::snapshot::{Snapshot, Span};
use crate::text::{chars_of, copy_str, copy_strings, same, seq_eq, strings_v};
use vstd::prelude::*;

verus! {

broadcast use vstd::string::group_string_axioms;

#[derive(Debug, Clone, Copy, PartialEq, Eq, Structural)]
pub enum VerdictKind {
    /// Same content hash exists in the new snapshot.
    Unchanged,
    /// Best match is similar but not identical (proposed; human may downgrade to meaning-changed).
    Reworded,
    /// Human decided the rewording changes meaning.
    MeaningChanged,
    /// No acceptable match in the new snapshot.
    Missing,
}

/// What the human decided for one verdict.
#[derive(Debug, Clone)]
pub enum Decision {
    /// Accept the proposed mapping (unchanged/reworded → keep anchor on `to`).
    Accept,
    /// Rewording changed meaning: keep the mapping, mark affected requirements.
    MeaningChanged,
    /// Re-anchor to a specific new span.
    Reanchor { span: String },
    /// Drop this anchor (requirement keeps its other anchors, or must be retired if none).
    Drop,
    /// Retire the affected requirement(s) with a reason.
    Retire { reason: String },
}

/// A similarity in `0..=1`, as the exact fraction `num / den`.
#[derive(Debug, Clone, Copy, PartialEq, Eq, Structural)]
pub struct Sim {
    pub num: u128,
    pub den: u128,
}

#[derive(Debug, Clone)]
pub struct Verdict {
    /// Span id in the old snapshot.
    pub from: String,
    pub from_text: String,
    /// Proposed span id in the new snapshot (None when missing).
    pub to: Option<String>,
    pub to_text: Option<String>,
    pub kind: VerdictKind,
    /// Similarity between from/to texts.
    pub similarity: Sim,
    /// Requirement ids anchored to `from`.
    pub reqs: Vec<String>,
    /// Question ids anchored to `from`.
    pub questions: Vec<String>,
    /// True if `from` had a non-normative mark.
    pub non_normative: bool,
    pub decision: Option<Decision>,
}

impl Verdict {
    pub open spec fn needs_confirmation_spec(&self) -> bool {
        self.kind != VerdictKind::Unchanged && self.decision is None
    }

    /// Verdicts that need a human before the round can close: anything not `unchanged` and
    /// not yet decided.
    pub fn needs_confirmation(&self) -> (r: bool)
        ensures
            r == self.needs_confirmation_spec(),
    {
        self.kind != VerdictKind::Unchanged && self.decision.is_none()
    }
}

/// A pending reconciliation between two snapshots of one doc in one context.
#[derive(Debug, Clone)]
pub struct Reconciliation {
    pub doc: String,
    pub from: String,
    pub to: String,
    pub verdicts: Vec<Verdict>,
    /// New-snapshot spans with no counterpart in the old one (they become residue).
    pub added: Vec<String>,
}

pub open spec fn count_unconfirmed(vs: Seq<Verdict>) -> nat
    decreases vs.len(),
{
    if vs.len() == 0 {
        0
    } else {
        count_unconfirmed(vs.drop_last()) + if vs.last().needs_confirmation_spec() { 1nat } else { 0nat }
    }
}

pub open spec fn count_kind(vs: Seq<Verdict>, k: VerdictKind) -> nat
    decreases vs.len(),
{
    if vs.len() == 0 {
        0
    } else {
        count_kind(vs.drop_last(), k) + if vs.last().kind == k { 1nat } else { 0nat }
    }
}

/// The kinds that occur in `vs`, in order of first occurrence.
pub open spec fn kinds_seen(vs: Seq<Verdict>) -> Seq<VerdictKind>
    decreases vs.len(),
{
    if vs.len() == 0 {
        Seq::empty()
    } else {
        let ks = kinds_seen(vs.drop_last());
        if ks.contains(vs.last().kind) { ks } else { ks.push(vs.last().kind) }
    }
}

impl Reconciliation {
    /// How many verdicts still need a human.
    pub fn unconfirmed(&self) -> (n: usize)
        ensures
            n == count_unconfirmed(self.verdicts@),
    {
        let mut n: usize = 0;
        let mut i: usize = 0;
        while i < self.verdicts.len()
            invariant
                i <= self.verdicts@.len(),
                n == count_unconfirmed(self.verdicts@.take(i as int)),
                n <= i,
            decreases self.verdicts@.len() - i,
        {
            proof {
                assert(self.verdicts@.take(i as int + 1).drop_last() =~= self.verdicts@.take(i as int));
            }
            if self.verdicts[i].needs_confirmation() {
                n += 1;
            }
            i += 1;
        }
        proof {
            assert(self.verdicts@.take(self.verdicts@.len() as int) =~= self.verdicts@);
        }
        n
    }

    /// Verdict count per kind, for every kind that occurs, in order of first occurrence.
    pub fn counts(&self) -> (r: Vec<(VerdictKind, usize)>)
        ensures
            r@.len() == kinds_seen(self.verdicts@).len(),
            forall|i: int| 0 <= i < r@.len() ==> (#[trigger] r@[i]).0 == kinds_seen(self.verdicts@)[i]
                && r@[i].1 == count_kind(self.verdicts@, r@[i].0),
    {
        let ghost vs = self.verdicts@;
        let mut kinds: Vec<VerdictKind> = Vec::new();
        let mut i: usize = 0;
        while i < self.verdicts.len()
            invariant
                i <= vs.len(),
                vs == self.verdicts@,
                kinds@ == kinds_seen(vs.take(i as int)),
            decreases vs.len() - i,
        {
            proof {
                assert(vs.take(i as int + 1).drop_last() =~= vs.take(i as int));
            }
            let k = self.verdicts[i].kind;
            let mut seen = false;
            let mut j: usize = 0;
            while j < kinds.len()
                invariant
                    j <= kinds@.len(),
                    seen == (exists|x: int| 0 <= x < j && kinds@[x] == k),
                decreases kinds@.len() - j,
            {
                if kinds[j] == k {
                    seen = true;
                }
                j += 1;
            }
            if !seen {
                kinds.push(k);
            }
            i += 1;
        }
        proof {
            assert(vs.take(vs.len() as int) =~= vs);
        }
        let mut out: Vec<(VerdictKind, usize)> = Vec::new();
        let mut x: usize = 0;
        while x < kinds.len()
            invariant
                x <= kinds@.len(),
                kinds@ == kinds_seen(vs),
                vs == self.verdicts@,
                out@.len() == x,
                forall|y: int| 0 <= y < x ==> (#[trigger] out@[y]).0 == kinds@[y] && out@[y].1 == count_kind(vs, out@[y].0),
            decreases kinds@.len() - x,
        {
            let k = kinds[x];
            let mut n: usize = 0;
            let mut i: usize = 0;
            while i < self.verdicts.len()
                invariant
                    i <= vs.len(),
                    vs == self.verdicts@,
                    n == count_kind(vs.take(i as int), k),
                    n <= i,
                decreases vs.len() - i,
            {
                proof {
                    assert(vs.take(i as int + 1).drop_last() =~= vs.take(i as int));
                }
                if self.verdicts[i].kind == k {
                    n += 1;
                }
                i += 1;
            }
            proof {
                assert(vs.take(vs.len() as int) =~= vs);
            }
            out.push((k, n));
            x += 1;
        }
        out
    }
}

// ---------- similarity ----------

/// The Levenshtein distance between two texts: the fewest single-character insertions,
/// deletions and substitutions that turn one into the other.
pub open spec fn edit_distance(a: Seq<char>, b: Seq<char>) -> nat
    decreases a.len() + b.len(),
{
    if a.len() == 0 {
        b.len()
    } else if b.len() == 0 {
        a.len()
    } else {
        let change = edit_distance(a.drop_last(), b.drop_last()) + if a.last() == b.last() { 0nat } else { 1nat };
        let remove = edit_distance(a.drop_last(), b) + 1;
        let add = edit_distance(a, b.drop_last()) + 1;
        if change <= remove && change <= add {
            change
        } else if remove <= add {
            remove
        } else {
            add
        }
    }
}

/// No more edits are needed than the longer text has characters.
proof fn lemma_edit_distance_bound(a: Seq<char>, b: Seq<char>)
    ensures
        edit_distance(a, b) <= max_nat(a.len(), b.len()),
    decreases a.len() + b.len(),
{
    if a.len() > 0 && b.len() > 0 {
        lemma_edit_distance_bound(a.drop_last(), b.drop_last());
    }
}

/// `strsim::levenshtein(a, b)`: the Levenshtein distance between the two texts, counted in
/// characters, as the crate documents it.
#[verifier::external_body]
fn levenshtein(a: &str, b: &str) -> (r: usize)
    ensures
        r == edit_distance(a@, b@),
{
    strsim::levenshtein(a, b)
}

/// The words of `ws`, each once, in order of first occurrence.
pub open spec fn distinct(ws: Seq<Seq<char>>) -> Seq<Seq<char>>
    decreases ws.len(),
{
    if ws.len() == 0 {
        Seq::empty()
    } else {
        let d = distinct(ws.drop_last());
        if d.contains(ws.last()) { d } else { d.push(ws.last()) }
    }
}

/// How many of `db` occur in `da`.
pub open spec fn common(da: Seq<Seq<char>>, db: Seq<Seq<char>>) -> nat
    decreases db.len(),
{
    if db.len() == 0 {
        0
    } else {
        common(da, db.drop_last()) + if da.contains(db.last()) { 1nat } else { 0nat }
    }
}

pub open spec fn max_nat(a: nat, b: nat) -> nat {
    if a >= b { a } else { b }
}

/// Text similarity in `0..=1`: the larger of the normalized Levenshtein similarity
/// `1 - distance / longer length` and the word-set Jaccard index `|A ∩ B| / |A ∪ B|`
/// (the union counted as at least 1). Identical texts have similarity 1.
pub open spec fn spec_similarity(a: Seq<char>, b: Seq<char>) -> (nat, nat) {
    spec_similarity_from(a, b, edit_distance(a, b))
}

/// The similarity of `a` and `b` when their Levenshtein distance is `l`.
pub open spec fn spec_similarity_from(a: Seq<char>, b: Seq<char>, l: nat) -> (nat, nat) {
    if a == b {
        (1, 1)
    } else {
        let m = max_nat(a.len(), b.len());
        let da = distinct(ws_runs(a));
        let db = distinct(ws_runs(b));
        let i = common(da, db);
        let u = max_nat((da.len() + db.len() - i) as nat, 1);
        if (m - l) * u >= i * m {
            ((m - l) as nat, m)
        } else {
            (i, u)
        }
    }
}

proof fn lemma_common_le(da: Seq<Seq<char>>, db: Seq<Seq<char>>)
    ensures
        common(da, db) <= db.len(),
    decreases db.len(),
{
    if db.len() > 0 {
        lemma_common_le(da, db.drop_last());
    }
}

fn words(v: &Vec<char>) -> (r: Vec<Vec<char>>)
    ensures
        r@.map_values(|w: Vec<char>| w@) == ws_runs(v@),
{
    let mut out: Vec<Vec<char>> = Vec::new();
    let mut cur: Vec<char> = Vec::new();
    let mut i: usize = 0;
    while i < v.len()
        invariant
            i <= v@.len(),
            (out@.map_values(|w: Vec<char>| w@), cur@) == scan_runs(v@.take(i as int)),
        decreases v@.len() - i,
    {
        let c = v[i];
        proof {
            assert(v@.take(i as int + 1).drop_last() =~= v@.take(i as int));
        }
        if !is_ws_exec(c) {
            cur.push(c);
        } else if cur.len() > 0 {
            let ghost o0 = out@;
            out.push(cur);
            proof {
                assert(out@.map_values(|w: Vec<char>| w@) =~= o0.map_values(|w: Vec<char>| w@).push(cur@));
            }
            cur = Vec::new();
        }
        i += 1;
    }
    proof {
        assert(v@.take(v@.len() as int) =~= v@);
    }
    if cur.len() > 0 {
        let ghost o0 = out@;
        out.push(cur);
        proof {
            assert(out@.map_values(|w: Vec<char>| w@) =~= o0.map_values(|w: Vec<char>| w@).push(cur@));
        }
    }
    out
}

fn contains_word(ws: &Vec<Vec<char>>, w: &Vec<char>) -> (r: bool)
    ensures
        r == ws@.map_values(|x: Vec<char>| x@).contains(w@),
{
    let ghost m = ws@.map_values(|x: Vec<char>| x@);
    let mut j: usize = 0;
    while j < ws.len()
        invariant
            j <= ws@.len(),
            m == ws@.map_values(|x: Vec<char>| x@),
            forall|x: int| 0 <= x < j ==> m[x] != w@,
        decreases ws@.len() - j,
    {
        if seq_eq(&ws[j], w) {
            proof {
                assert(m[j as int] == w@);
            }
            return true;
        }
        j += 1;
    }
    false
}

fn distinct_words(ws: &Vec<Vec<char>>) -> (r: Vec<Vec<char>>)
    ensures
        r@.map_values(|w: Vec<char>| w@) == distinct(ws@.map_values(|w: Vec<char>| w@)),
{
    let ghost m = ws@.map_values(|w: Vec<char>| w@);
    let mut out: Vec<Vec<char>> = Vec::new();
    let mut i: usize = 0;
    while i < ws.len()
        invariant
            i <= ws@.len(),
            m == ws@.map_values(|w: Vec<char>| w@),
            out@.map_values(|w: Vec<char>| w@) == distinct(m.take(i as int)),
        decreases ws@.len() - i,
    {
        proof {
            assert(m.take(i as int + 1).drop_last() =~= m.take(i as int));
            assert(m.take(i as int + 1).last() == ws@[i as int]@);
        }
        if !contains_word(&out, &ws[i]) {
            let ghost o0 = out@;
            out.push(ws[i].clone());
            proof {
                assert(out@.map_values(|w: Vec<char>| w@) =~= o0.map_values(|w: Vec<char>| w@).push(ws@[i as int]@));
            }
        }
        i += 1;
    }
    proof {
        assert(m.take(m.len() as int) =~= m);
    }
    out
}

/// Text similarity: see `spec_similarity`.
pub fn similarity(a: &str, b: &str) -> (r: Sim)
    ensures
        (r.num as nat, r.den as nat) == spec_similarity(a@, b@),
        0 < r.den,
        r.num <= r.den,
        r.den <= 0x1_0000_0000_0000_0000u128,
{
    let l = levenshtein(a, b);
    proof {
        lemma_edit_distance_bound(a@, b@);
    }
    similarity_from(a, b, l)
}

/// Text similarity of `a` and `b` given their Levenshtein distance `dist`, which is at most
/// the longer length (see `spec_similarity_from`).
pub fn similarity_from(a: &str, b: &str, dist: usize) -> (r: Sim)
    requires
        dist <= a@.len() || dist <= b@.len(),
    ensures
        (r.num as nat, r.den as nat) == spec_similarity_from(a@, b@, dist as nat),
        0 < r.den,
        r.num <= r.den,
        r.den <= 0x1_0000_0000_0000_0000u128,
{
    if same(a, b) {
        return Sim { num: 1, den: 1 };
    }
    let l = dist;
    let av = chars_of(a);
    let bv = chars_of(b);
    let m = if av.len() >= bv.len() { av.len() } else { bv.len() };
    let wa = words(&av);
    let wb = words(&bv);
    let da = distinct_words(&wa);
    let db = distinct_words(&wb);
    let ghost sa = da@.map_values(|w: Vec<char>| w@);
    let ghost sb = db@.map_values(|w: Vec<char>| w@);
    let mut i: usize = 0;
    let mut k: usize = 0;
    while k < db.len()
        invariant
            k <= db@.len(),
            sa == da@.map_values(|w: Vec<char>| w@),
            sb == db@.map_values(|w: Vec<char>| w@),
            i == common(sa, sb.take(k as int)),
            i <= k,
        decreases db@.len() - k,
    {
        proof {
            assert(sb.take(k as int + 1).drop_last() =~= sb.take(k as int));
            assert(sb.take(k as int + 1).last() == db@[k as int]@);
        }
        if contains_word(&da, &db[k]) {
            i += 1;
        }
        k += 1;
    }
    proof {
        assert(sb.take(sb.len() as int) =~= sb);
        lemma_common_le(sa, sb);
        lemma_word_count(av@);
        lemma_word_count(bv@);
        lemma_distinct_le(wa@.map_values(|w: Vec<char>| w@));
        lemma_distinct_le(wb@.map_values(|w: Vec<char>| w@));
        lemma_distinct_no_dup(wb@.map_values(|w: Vec<char>| w@));
        lemma_common_le_left(sa, sb);
        if m == 0 {
            assert(a@ =~= b@);
        }
    }
    let u0: u128 = (da.len() as u128) + ((db.len() - i) as u128);
    let u: u128 = if u0 >= 1 { u0 } else { 1 };
    let lev_num: u128 = (m - l) as u128;
    let mm: u128 = m as u128;
    let ii: u128 = i as u128;
    proof {
        assert(u <= 0x1_0000_0000_0000_0000u128);
        assert(lev_num < 0x1_0000_0000_0000_0000u128);
        assert(lev_num * u <= 0xffff_ffff_ffff_ffffu128 * 0x1_0000_0000_0000_0000u128) by (nonlinear_arith)
            requires lev_num <= 0xffff_ffff_ffff_ffffu128, u <= 0x1_0000_0000_0000_0000u128;
        assert(ii * mm <= 0xffff_ffff_ffff_ffffu128 * 0xffff_ffff_ffff_ffffu128) by (nonlinear_arith)
            requires ii <= 0xffff_ffff_ffff_ffffu128, mm <= 0xffff_ffff_ffff_ffffu128;
    }
    if lev_num * u >= ii * mm {
        Sim { num: lev_num, den: mm }
    } else {
        Sim { num: ii, den: u }
    }
}

proof fn lemma_scan_count(s: Seq<char>)
    ensures
        2 * scan_runs(s).0.len() + scan_runs(s).1.len() <= s.len(),
    decreases s.len(),
{
    if s.len() > 0 {
        lemma_scan_count(s.drop_last());
    }
}

/// A text of `n` characters has at most `(n + 1) / 2` words.
proof fn lemma_word_count(s: Seq<char>)
    ensures
        2 * ws_runs(s).len() <= s.len() + 1,
{
    lemma_scan_count(s);
}

spec fn occurrences(s: Seq<Seq<char>>, y: Seq<char>) -> nat
    decreases s.len(),
{
    if s.len() == 0 {
        0
    } else {
        occurrences(s.drop_last(), y) + if s.last() == y { 1nat } else { 0nat }
    }
}

proof fn lemma_common_push(da: Seq<Seq<char>>, y: Seq<char>, db: Seq<Seq<char>>)
    ensures
        common(da.push(y), db) <= common(da, db) + occurrences(db, y),
    decreases db.len(),
{
    if db.len() > 0 {
        lemma_common_push(da, y, db.drop_last());
        let z = db.last();
        if da.push(y).contains(z) && z != y {
            let k = choose|k: int| 0 <= k < da.push(y).len() && da.push(y)[k] == z;
            assert(k < da.len());
            assert(da[k] == z);
        }
    }
}

proof fn lemma_occurrences_no_dup(s: Seq<Seq<char>>, y: Seq<char>)
    requires
        s.no_duplicates(),
    ensures
        occurrences(s, y) <= 1,
    decreases s.len(),
{
    if s.len() > 0 {
        let t = s.drop_last();
        assert(t.no_duplicates()) by {
            assert forall|i: int, j: int| 0 <= i < t.len() && 0 <= j < t.len() && i != j implies t[i] != t[j] by {
                assert(t[i] == s[i] && t[j] == s[j]);
            }
        }
        lemma_occurrences_no_dup(t, y);
        if s.last() == y {
            lemma_occurrences_absent(t, y, s);
        }
    }
}

proof fn lemma_occurrences_absent(t: Seq<Seq<char>>, y: Seq<char>, s: Seq<Seq<char>>)
    requires
        s.no_duplicates(),
        s.len() > 0,
        t == s.drop_last(),
        s.last() == y,
    ensures
        occurrences(t, y) == 0,
{
    assert forall|k: int| 0 <= k < t.len() implies t[k] != y by {
        assert(t[k] == s[k]);
        assert(s[k] != s[s.len() - 1]);
    }
    lemma_occurrences_zero(t, y);
}

proof fn lemma_occurrences_zero(t: Seq<Seq<char>>, y: Seq<char>)
    requires
        forall|k: int| 0 <= k < t.len() ==> t[k] != y,
    ensures
        occurrences(t, y) == 0,
    decreases t.len(),
{
    if t.len() > 0 {
        lemma_occurrences_zero(t.drop_last(), y);
    }
}

/// Against a list without repeats, no more words are common than `da` has.
proof fn lemma_common_le_left(da: Seq<Seq<char>>, db: Seq<Seq<char>>)
    requires
        db.no_duplicates(),
    ensures
        common(da, db) <= da.len(),
    decreases da.len(),
{
    if da.len() == 0 {
        lemma_common_none(da, db);
    } else {
        let d2 = da.drop_last();
        lemma_common_le_left(d2, db);
        assert(d2.push(da.last()) =~= da);
        lemma_common_push(d2, da.last(), db);
        lemma_occurrences_no_dup(db, da.last());
    }
}

proof fn lemma_common_none(da: Seq<Seq<char>>, db: Seq<Seq<char>>)
    requires
        da.len() == 0,
    ensures
        common(da, db) == 0,
    decreases db.len(),
{
    if db.len() > 0 {
        lemma_common_none(da, db.drop_last());
    }
}

proof fn lemma_distinct_no_dup(ws: Seq<Seq<char>>)
    ensures
        distinct(ws).no_duplicates(),
    decreases ws.len(),
{
    if ws.len() > 0 {
        lemma_distinct_no_dup(ws.drop_last());
    }
}

proof fn lemma_distinct_le(ws: Seq<Seq<char>>)
    ensures
        distinct(ws).len() <= ws.len(),
    decreases ws.len(),
{
    if ws.len() > 0 {
        lemma_distinct_le(ws.drop_last());
    }
}


// ---------- matching ----------

/// The similarity a reworded match must reach: 11/20.
pub const REWORD_NUM: u128 = 11;
pub const REWORD_DEN: u128 = 20;
/// Scale of a candidate's ranking score: one similarity unit.
pub const SCORE_SCALE: u128 = 2_097_152_000;
/// Ranking penalty per position of distance between old and new span (1/2000 of the scale).
pub const POSITION_PENALTY: u128 = 1_048_576;

/// A span's classification: requirement ids, question ids, and whether it is marked
/// non-normative.
pub type Classification = (Vec<String>, Vec<String>, bool);

pub open spec fn similar_enough(sim: (nat, nat)) -> bool {
    REWORD_DEN * sim.0 >= REWORD_NUM * sim.1
}

pub open spec fn ord_dist(a: u32, b: u32) -> nat {
    if a >= b { (a - b) as nat } else { (b - a) as nat }
}

/// Ranking score of a candidate pair: the similarity scaled and rounded down, less the
/// position penalty.
pub open spec fn pair_score(sim: (nat, nat), dist: nat) -> int {
    (sim.0 * SCORE_SCALE) as int / (sim.1 as int) - dist * POSITION_PENALTY
}

pub open spec fn cls_at(cls: Seq<Option<Classification>>, i: int) -> Option<Classification> {
    if 0 <= i < cls.len() { cls[i] } else { None }
}

/// Index of the last span with id `id` (a lookup table built from the spans keeps the last).
pub open spec fn last_with_id(spans: Seq<Span>, id: Seq<char>) -> Option<int>
    decreases spans.len(),
{
    if spans.len() == 0 {
        None
    } else if spans.last().id@ == id {
        Some(spans.len() - 1)
    } else {
        last_with_id(spans.drop_last(), id)
    }
}

/// Pass 1 over the first `k` old spans: classified spans whose id exists in the new snapshot
/// (pairs of old and new index), and the other classified spans (old indices).
pub open spec fn pass1(old: Seq<Span>, new: Seq<Span>, cls: Seq<Option<Classification>>, k: int) -> (Seq<(int, int)>, Seq<int>)
    decreases k,
{
    if k <= 0 {
        (Seq::empty(), Seq::empty())
    } else {
        let (u, p) = pass1(old, new, cls, k - 1);
        if cls_at(cls, k - 1) is None {
            (u, p)
        } else {
            match last_with_id(new, old[k - 1].id@) {
                Some(j) => (u.push((k - 1, j)), p),
                None => (u, p.push(k - 1)),
            }
        }
    }
}

/// New spans (indices, among the first `k`) whose id the old snapshot lacks.
pub open spec fn candidates(old: Seq<Span>, new: Seq<Span>, k: int) -> Seq<int>
    decreases k,
{
    if k <= 0 {
        Seq::empty()
    } else {
        let c = candidates(old, new, k - 1);
        if last_with_id(old, new[k - 1].id@) is None { c.push(k - 1) } else { c }
    }
}

/// Candidate pairs `(score, pending index, candidate index)` for pending span `pi` and the
/// first `k` candidates: same block kind and similar enough.
pub open spec fn scored_row(old: Seq<Span>, new: Seq<Span>, pend: Seq<int>, cand: Seq<int>, pi: int, k: int) -> Seq<(int, int, int)>
    decreases k,
{
    if k <= 0 {
        Seq::empty()
    } else {
        let r = scored_row(old, new, pend, cand, pi, k - 1);
        let s = old[pend[pi]];
        let c = new[cand[k - 1]];
        let sim = spec_similarity(s.text@, c.text@);
        if c.block == s.block && similar_enough(sim) {
            r.push((pair_score(sim, ord_dist(s.ord, c.ord)), pi, k - 1))
        } else {
            r
        }
    }
}

/// All candidate pairs of the first `n` pending spans, pending-major.
pub open spec fn scored(old: Seq<Span>, new: Seq<Span>, pend: Seq<int>, cand: Seq<int>, n: int) -> Seq<(int, int, int)>
    decreases n,
{
    if n <= 0 {
        Seq::empty()
    } else {
        scored(old, new, pend, cand, n - 1) + scored_row(old, new, pend, cand, n - 1, cand.len() as int)
    }
}

/// Insert `x` after every element scoring at least as much.
pub open spec fn insert_desc(s: Seq<(int, int, int)>, x: (int, int, int)) -> Seq<(int, int, int)>
    decreases s.len(),
{
    if s.len() == 0 {
        seq![x]
    } else if s[0].0 < x.0 {
        seq![x] + s
    } else {
        seq![s[0]] + insert_desc(s.drop_first(), x)
    }
}

/// Stable sort by descending score.
pub open spec fn sort_desc(s: Seq<(int, int, int)>) -> Seq<(int, int, int)>
    decreases s.len(),
{
    if s.len() == 0 {
        Seq::empty()
    } else {
        insert_desc(sort_desc(s.drop_last()), s.last())
    }
}

/// Greedy matching in ranking order: a pair is taken when neither side is matched yet.
/// The result maps pending index to candidate index, with the candidates used.
pub open spec fn greedy(sorted: Seq<(int, int, int)>) -> (Map<int, int>, Set<int>)
    decreases sorted.len(),
{
    if sorted.len() == 0 {
        (Map::empty(), Set::empty())
    } else {
        let (m, used) = greedy(sorted.drop_last());
        let x = sorted.last();
        if m.dom().contains(x.1) || used.contains(x.2) {
            (m, used)
        } else {
            (m.insert(x.1, x.2), used.insert(x.2))
        }
    }
}

/// The verdict plan before ordering: unchanged pairs, then each pending span with its match
/// (reworded) or none (missing). Entries are `(old index, new index, kind)`.
pub open spec fn plan(old: Seq<Span>, new: Seq<Span>, cls: Seq<Option<Classification>>) -> Seq<(int, Option<int>, VerdictKind)> {
    let (u, pend) = pass1(old, new, cls, old.len() as int);
    let cand = candidates(old, new, new.len() as int);
    let m = greedy(sort_desc(scored(old, new, pend, cand, pend.len() as int))).0;
    u.map_values(|x: (int, int)| (x.0, Some(x.1), VerdictKind::Unchanged))
        + Seq::new(pend.len(), |pi: int| if m.dom().contains(pi) {
            (pend[pi], Some(cand[m[pi]]), VerdictKind::Reworded)
        } else {
            (pend[pi], None, VerdictKind::Missing)
        })
}

/// Document order of an old span: the order of the last old span with its id.
pub open spec fn ord_key(old: Seq<Span>, i: int) -> int {
    match last_with_id(old, old[i].id@) {
        Some(j) => old[j].ord as int,
        None => u32::MAX as int,
    }
}

/// Insert `x` after every entry whose key is at most its key.
pub open spec fn insert_by_ord(old: Seq<Span>, s: Seq<(int, Option<int>, VerdictKind)>, x: (int, Option<int>, VerdictKind)) -> Seq<(int, Option<int>, VerdictKind)>
    decreases s.len(),
{
    if s.len() == 0 {
        seq![x]
    } else if ord_key(old, s[0].0) > ord_key(old, x.0) {
        seq![x] + s
    } else {
        seq![s[0]] + insert_by_ord(old, s.drop_first(), x)
    }
}

/// Stable sort by document order of the old span.
pub open spec fn sort_by_ord(old: Seq<Span>, s: Seq<(int, Option<int>, VerdictKind)>) -> Seq<(int, Option<int>, VerdictKind)>
    decreases s.len(),
{
    if s.len() == 0 {
        Seq::empty()
    } else {
        insert_by_ord(old, sort_by_ord(old, s.drop_last()), s.last())
    }
}

/// The verdicts' plan in document order.
pub open spec fn verdict_plan(old: Seq<Span>, new: Seq<Span>, cls: Seq<Option<Classification>>) -> Seq<(int, Option<int>, VerdictKind)> {
    sort_by_ord(old, plan(old, new, cls))
}

/// New span ids that some verdict maps onto.
pub open spec fn taken(old: Seq<Span>, new: Seq<Span>, cls: Seq<Option<Classification>>) -> Set<Seq<char>> {
    let p = plan(old, new, cls);
    Set::new(|id: Seq<char>| exists|k: int| 0 <= k < p.len() && ((#[trigger] p[k]).1 matches Some(j) && new[j].id@ == id))
}

/// New spans (indices, among the first `k`) with no counterpart in the old snapshot and no
/// verdict onto them.
pub open spec fn added(old: Seq<Span>, new: Seq<Span>, cls: Seq<Option<Classification>>, k: int) -> Seq<int>
    decreases k,
{
    if k <= 0 {
        Seq::empty()
    } else {
        let a = added(old, new, cls, k - 1);
        let id = new[k - 1].id@;
        if last_with_id(old, id) is None && !taken(old, new, cls).contains(id) { a.push(k - 1) } else { a }
    }
}

/// What verdict `v` says for plan entry `e`.
pub open spec fn verdict_is(v: Verdict, old: Seq<Span>, new: Seq<Span>, cls: Seq<Option<Classification>>, e: (int, Option<int>, VerdictKind)) -> bool {
    let s = old[e.0];
    let c = cls_at(cls, e.0).unwrap();
    &&& v.from@ == s.id@
    &&& v.from_text@ == s.text@
    &&& v.kind == e.2
    &&& strings_v(v.reqs@) == strings_v(c.0@)
    &&& strings_v(v.questions@) == strings_v(c.1@)
    &&& v.non_normative == c.2
    &&& match e.1 {
        Some(j) => (v.to matches Some(t) && t@ == new[j].id@) && (v.to_text matches Some(tt) && tt@ == new[j].text@),
        None => v.to is None && v.to_text is None,
    }
    &&& match e.2 {
        VerdictKind::Unchanged => v.similarity == Sim { num: 1, den: 1 } && v.decision matches Some(Decision::Accept),
        VerdictKind::Reworded => (v.similarity.num as nat, v.similarity.den as nat) == spec_similarity(s.text@, new[e.1.unwrap()].text@) && v.decision is None,
        _ => v.similarity == Sim { num: 0, den: 1 } && v.decision is None,
    }
}


// ---------- facts about the plan ----------

pub open spec fn scored_in(s: Seq<(int, int, int)>, np: int, nc: int) -> bool {
    forall|k: int| 0 <= k < s.len() ==> 0 <= (#[trigger] s[k]).1 < np && 0 <= s[k].2 < nc
}

pub proof fn lemma_last_with_id(spans: Seq<Span>, id: Seq<char>)
    ensures
        last_with_id(spans, id) matches Some(j) ==> 0 <= j < spans.len() && spans[j].id@ == id,
        last_with_id(spans, id) is None ==> forall|j: int| 0 <= j < spans.len() ==> (#[trigger] spans[j]).id@ != id,
    decreases spans.len(),
{
    if spans.len() > 0 {
        lemma_last_with_id(spans.drop_last(), id);
        if spans.last().id@ != id {
            assert forall|j: int| 0 <= j < spans.len() - 1 implies spans.drop_last()[j] == spans[j] by {}
        }
    }
}

proof fn lemma_pass1(old: Seq<Span>, new: Seq<Span>, cls: Seq<Option<Classification>>, k: int)
    requires
        0 <= k <= old.len(),
    ensures
        forall|x: int| 0 <= x < pass1(old, new, cls, k).0.len() ==> {
            let e = #[trigger] pass1(old, new, cls, k).0[x];
            0 <= e.0 < k && cls_at(cls, e.0) is Some && 0 <= e.1 < new.len()
        },
        forall|x: int| 0 <= x < pass1(old, new, cls, k).1.len() ==> {
            let e = #[trigger] pass1(old, new, cls, k).1[x];
            0 <= e < k && cls_at(cls, e) is Some
        },
    decreases k,
{
    if k > 0 {
        lemma_pass1(old, new, cls, k - 1);
        lemma_last_with_id(new, old[k - 1].id@);
    }
}

proof fn lemma_candidates(old: Seq<Span>, new: Seq<Span>, k: int)
    requires
        0 <= k <= new.len(),
    ensures
        forall|x: int| 0 <= x < candidates(old, new, k).len() ==> 0 <= #[trigger] candidates(old, new, k)[x] < k,
    decreases k,
{
    if k > 0 {
        lemma_candidates(old, new, k - 1);
        let c = candidates(old, new, k - 1);
        assert forall|x: int| 0 <= x < candidates(old, new, k).len() implies 0 <= #[trigger] candidates(old, new, k)[x] < k by {
            if x < c.len() {
                assert(candidates(old, new, k)[x] == c[x]);
            }
        }
    }
}

proof fn lemma_scored_row(old: Seq<Span>, new: Seq<Span>, pend: Seq<int>, cand: Seq<int>, pi: int, k: int)
    requires
        0 <= k <= cand.len(),
    ensures
        forall|x: int| 0 <= x < scored_row(old, new, pend, cand, pi, k).len() ==> {
            let e = #[trigger] scored_row(old, new, pend, cand, pi, k)[x];
            e.1 == pi && 0 <= e.2 < k
        },
    decreases k,
{
    if k > 0 {
        lemma_scored_row(old, new, pend, cand, pi, k - 1);
        let r = scored_row(old, new, pend, cand, pi, k - 1);
        assert forall|x: int| 0 <= x < scored_row(old, new, pend, cand, pi, k).len() implies {
            let e = #[trigger] scored_row(old, new, pend, cand, pi, k)[x];
            e.1 == pi && 0 <= e.2 < k
        } by {
            if x < r.len() {
                assert(scored_row(old, new, pend, cand, pi, k)[x] == r[x]);
            }
        }
    }
}

proof fn lemma_scored(old: Seq<Span>, new: Seq<Span>, pend: Seq<int>, cand: Seq<int>, n: int)
    requires
        0 <= n,
    ensures
        scored_in(scored(old, new, pend, cand, n), n, cand.len() as int),
    decreases n,
{
    if n > 0 {
        lemma_scored(old, new, pend, cand, n - 1);
        lemma_scored_row(old, new, pend, cand, n - 1, cand.len() as int);
        let a = scored(old, new, pend, cand, n - 1);
        let b = scored_row(old, new, pend, cand, n - 1, cand.len() as int);
        assert forall|k: int| 0 <= k < (a + b).len() implies 0 <= (#[trigger] (a + b)[k]).1 < n && 0 <= (a + b)[k].2 < cand.len() by {
            if k >= a.len() {
                assert((a + b)[k] == b[k - a.len()]);
            }
        }
    }
}

proof fn lemma_insert_desc_in(s: Seq<(int, int, int)>, x: (int, int, int), np: int, nc: int)
    requires
        scored_in(s, np, nc),
        0 <= x.1 < np && 0 <= x.2 < nc,
    ensures
        scored_in(insert_desc(s, x), np, nc),
        insert_desc(s, x).len() == s.len() + 1,
    decreases s.len(),
{
    if s.len() > 0 && s[0].0 >= x.0 {
        let t = s.drop_first();
        assert(scored_in(t, np, nc)) by {
            assert forall|k: int| 0 <= k < t.len() implies 0 <= (#[trigger] t[k]).1 < np && 0 <= t[k].2 < nc by {
                assert(t[k] == s[k + 1]);
            }
        }
        lemma_insert_desc_in(t, x, np, nc);
        let r = seq![s[0]] + insert_desc(t, x);
        assert forall|k: int| 0 <= k < r.len() implies 0 <= (#[trigger] r[k]).1 < np && 0 <= r[k].2 < nc by {
            if k > 0 {
                assert(r[k] == insert_desc(t, x)[k - 1]);
            }
        }
    } else if s.len() > 0 {
        let r = seq![x] + s;
        assert forall|k: int| 0 <= k < r.len() implies 0 <= (#[trigger] r[k]).1 < np && 0 <= r[k].2 < nc by {
            if k > 0 {
                assert(r[k] == s[k - 1]);
            }
        }
    }
}

proof fn lemma_sort_desc_in(s: Seq<(int, int, int)>, np: int, nc: int)
    requires
        scored_in(s, np, nc),
    ensures
        scored_in(sort_desc(s), np, nc),
        sort_desc(s).len() == s.len(),
    decreases s.len(),
{
    if s.len() > 0 {
        let t = s.drop_last();
        assert(scored_in(t, np, nc)) by {
            assert forall|k: int| 0 <= k < t.len() implies 0 <= (#[trigger] t[k]).1 < np && 0 <= t[k].2 < nc by {
                assert(t[k] == s[k]);
            }
        }
        lemma_sort_desc_in(t, np, nc);
        assert(s.last() == s[s.len() - 1]);
        lemma_insert_desc_in(sort_desc(t), s.last(), np, nc);
    }
}

proof fn lemma_greedy_in(sorted: Seq<(int, int, int)>, np: int, nc: int)
    requires
        scored_in(sorted, np, nc),
    ensures
        forall|pi: int| #[trigger] greedy(sorted).0.dom().contains(pi) ==> 0 <= pi < np && 0 <= greedy(sorted).0[pi] < nc,
        greedy(sorted).0.dom().finite(),
    decreases sorted.len(),
{
    if sorted.len() > 0 {
        let t = sorted.drop_last();
        assert(scored_in(t, np, nc)) by {
            assert forall|k: int| 0 <= k < t.len() implies 0 <= (#[trigger] t[k]).1 < np && 0 <= t[k].2 < nc by {
                assert(t[k] == sorted[k]);
            }
        }
        lemma_greedy_in(t, np, nc);
        assert(sorted.last() == sorted[sorted.len() - 1]);
    }
}

/// `insert_desc` puts `x` at the first position whose element scores less.
proof fn lemma_insert_desc_at(s: Seq<(int, int, int)>, x: (int, int, int), p: int)
    requires
        0 <= p <= s.len(),
        forall|k: int| 0 <= k < p ==> (#[trigger] s[k]).0 >= x.0,
        p < s.len() ==> s[p].0 < x.0,
    ensures
        insert_desc(s, x) == s.insert(p, x),
    decreases s.len(),
{
    if s.len() == 0 {
        assert(s.insert(p, x) =~= seq![x]);
    } else if s[0].0 < x.0 {
        assert(p == 0);
        assert(s.insert(p, x) =~= seq![x] + s);
    } else {
        let t = s.drop_first();
        assert forall|k: int| 0 <= k < p - 1 implies (#[trigger] t[k]).0 >= x.0 by {
            assert(t[k] == s[k + 1]);
        }
        if p - 1 < t.len() {
            assert(t[p - 1] == s[p]);
        }
        lemma_insert_desc_at(t, x, p - 1);
        assert(s.insert(p, x) =~= seq![s[0]] + t.insert(p - 1, x));
    }
}

proof fn lemma_insert_by_ord_at(old: Seq<Span>, s: Seq<(int, Option<int>, VerdictKind)>, x: (int, Option<int>, VerdictKind), p: int)
    requires
        0 <= p <= s.len(),
        forall|k: int| 0 <= k < p ==> ord_key(old, (#[trigger] s[k]).0) <= ord_key(old, x.0),
        p < s.len() ==> ord_key(old, s[p].0) > ord_key(old, x.0),
    ensures
        insert_by_ord(old, s, x) == s.insert(p, x),
    decreases s.len(),
{
    if s.len() == 0 {
        assert(s.insert(p, x) =~= seq![x]);
    } else if ord_key(old, s[0].0) > ord_key(old, x.0) {
        assert(p == 0);
        assert(s.insert(p, x) =~= seq![x] + s);
    } else {
        let t = s.drop_first();
        assert forall|k: int| 0 <= k < p - 1 implies ord_key(old, (#[trigger] t[k]).0) <= ord_key(old, x.0) by {
            assert(t[k] == s[k + 1]);
        }
        if p - 1 < t.len() {
            assert(t[p - 1] == s[p]);
        }
        lemma_insert_by_ord_at(old, t, x, p - 1);
        assert(s.insert(p, x) =~= seq![s[0]] + t.insert(p - 1, x));
    }
}

/// Plan entries name classified old spans and, where they have one, a new span.
pub open spec fn plan_ok(old: Seq<Span>, new: Seq<Span>, cls: Seq<Option<Classification>>, p: Seq<(int, Option<int>, VerdictKind)>) -> bool {
    forall|k: int| 0 <= k < p.len() ==> {
        let e = #[trigger] p[k];
        &&& 0 <= e.0 < old.len()
        &&& cls_at(cls, e.0) is Some
        &&& (e.1 matches Some(j) ==> 0 <= j < new.len())
        &&& (e.2 == VerdictKind::Unchanged || e.2 == VerdictKind::Reworded) <==> e.1 is Some
    }
}

proof fn lemma_plan_ok(old: Seq<Span>, new: Seq<Span>, cls: Seq<Option<Classification>>)
    ensures
        plan_ok(old, new, cls, plan(old, new, cls)),
{
    let (u, pend) = pass1(old, new, cls, old.len() as int);
    let cand = candidates(old, new, new.len() as int);
    lemma_pass1(old, new, cls, old.len() as int);
    lemma_candidates(old, new, new.len() as int);
    let sc = scored(old, new, pend, cand, pend.len() as int);
    lemma_scored(old, new, pend, cand, pend.len() as int);
    lemma_sort_desc_in(sc, pend.len() as int, cand.len() as int);
    lemma_greedy_in(sort_desc(sc), pend.len() as int, cand.len() as int);
    let m = greedy(sort_desc(sc)).0;
    let a = u.map_values(|x: (int, int)| (x.0, Some(x.1), VerdictKind::Unchanged));
    let b = Seq::new(pend.len(), |pi: int| if m.dom().contains(pi) {
        (pend[pi], Some(cand[m[pi]]), VerdictKind::Reworded)
    } else {
        (pend[pi], None, VerdictKind::Missing)
    });
    let p = plan(old, new, cls);
    assert(p == a + b);
    assert forall|k: int| 0 <= k < p.len() implies {
        let e = #[trigger] p[k];
        &&& 0 <= e.0 < old.len()
        &&& cls_at(cls, e.0) is Some
        &&& (e.1 matches Some(j) ==> 0 <= j < new.len())
        &&& (e.2 == VerdictKind::Unchanged || e.2 == VerdictKind::Reworded) <==> e.1 is Some
    } by {
        if k < a.len() {
            assert(p[k] == a[k]);
            assert(a[k] == (u[k].0, Some(u[k].1), VerdictKind::Unchanged));
        } else {
            let pi = k - a.len();
            assert(p[k] == b[pi]);
            if m.dom().contains(pi) {
                assert(0 <= m[pi] < cand.len());
                assert(0 <= cand[m[pi]] < new.len());
            }
        }
    }
}

proof fn lemma_insert_by_ord_ok(old: Seq<Span>, new: Seq<Span>, cls: Seq<Option<Classification>>, s: Seq<(int, Option<int>, VerdictKind)>, x: (int, Option<int>, VerdictKind))
    requires
        plan_ok(old, new, cls, s),
        plan_ok(old, new, cls, seq![x]),
    ensures
        plan_ok(old, new, cls, insert_by_ord(old, s, x)),
        insert_by_ord(old, s, x).len() == s.len() + 1,
    decreases s.len(),
{
    assert(seq![x][0] == x);
    if s.len() > 0 && ord_key(old, s[0].0) <= ord_key(old, x.0) {
        let t = s.drop_first();
        assert(plan_ok(old, new, cls, t)) by {
            assert forall|k: int| 0 <= k < t.len() implies #[trigger] t[k] == s[k + 1] by {}
        }
        lemma_insert_by_ord_ok(old, new, cls, t, x);
        let r = seq![s[0]] + insert_by_ord(old, t, x);
        assert forall|k: int| 0 <= k < r.len() && k > 0 implies #[trigger] r[k] == insert_by_ord(old, t, x)[k - 1] by {}
        assert(r[0] == s[0]);
    } else if s.len() > 0 {
        let r = seq![x] + s;
        assert forall|k: int| 0 <= k < r.len() && k > 0 implies #[trigger] r[k] == s[k - 1] by {}
        assert(r[0] == x);
    }
}

proof fn lemma_sort_by_ord_ok(old: Seq<Span>, new: Seq<Span>, cls: Seq<Option<Classification>>, s: Seq<(int, Option<int>, VerdictKind)>)
    requires
        plan_ok(old, new, cls, s),
    ensures
        plan_ok(old, new, cls, sort_by_ord(old, s)),
        sort_by_ord(old, s).len() == s.len(),
    decreases s.len(),
{
    if s.len() > 0 {
        let t = s.drop_last();
        assert(plan_ok(old, new, cls, t)) by {
            assert forall|k: int| 0 <= k < t.len() implies #[trigger] t[k] == s[k] by {}
        }
        assert(plan_ok(old, new, cls, seq![s.last()])) by {
            assert(seq![s.last()][0] == s[s.len() - 1]);
        }
        lemma_sort_by_ord_ok(old, new, cls, t);
        lemma_insert_by_ord_ok(old, new, cls, sort_by_ord(old, t), s.last());
    }
}


// ---------- laws ----------

/// How many of the first `k` old spans are classified.
pub open spec fn count_classified(cls: Seq<Option<Classification>>, k: int) -> nat
    decreases k,
{
    if k <= 0 {
        0
    } else {
        count_classified(cls, k - 1) + if cls_at(cls, k - 1) is Some { 1nat } else { 0nat }
    }
}

proof fn lemma_pass1_len(old: Seq<Span>, new: Seq<Span>, cls: Seq<Option<Classification>>, k: int)
    ensures
        pass1(old, new, cls, k).0.len() + pass1(old, new, cls, k).1.len() == count_classified(cls, k),
    decreases k,
{
    if k > 0 {
        lemma_pass1_len(old, new, cls, k - 1);
    }
}

/// Every classified span of the old snapshot gets exactly one verdict, and nothing else does.
pub proof fn law_one_verdict_per_classified_span(old: Seq<Span>, new: Seq<Span>, cls: Seq<Option<Classification>>)
    ensures
        verdict_plan(old, new, cls).len() == count_classified(cls, old.len() as int),
        forall|k: int| 0 <= k < verdict_plan(old, new, cls).len() ==> cls_at(cls, (#[trigger] verdict_plan(old, new, cls)[k]).0) is Some,
{
    lemma_pass1_len(old, new, cls, old.len() as int);
    lemma_plan_ok(old, new, cls);
    lemma_sort_by_ord_ok(old, new, cls, plan(old, new, cls));
}

/// The pairs that scoring admits: same block kind, similar enough.
pub open spec fn admissible(old: Seq<Span>, new: Seq<Span>, pend: Seq<int>, cand: Seq<int>, x: (int, int, int)) -> bool {
    &&& 0 <= x.1 < pend.len()
    &&& 0 <= x.2 < cand.len()
    &&& new[cand[x.2]].block == old[pend[x.1]].block
    &&& similar_enough(spec_similarity(old[pend[x.1]].text@, new[cand[x.2]].text@))
}

pub open spec fn all_admissible(old: Seq<Span>, new: Seq<Span>, pend: Seq<int>, cand: Seq<int>, s: Seq<(int, int, int)>) -> bool {
    forall|k: int| 0 <= k < s.len() ==> admissible(old, new, pend, cand, #[trigger] s[k])
}

proof fn lemma_scored_admissible(old: Seq<Span>, new: Seq<Span>, pend: Seq<int>, cand: Seq<int>, n: int)
    requires
        0 <= n <= pend.len(),
    ensures
        all_admissible(old, new, pend, cand, scored(old, new, pend, cand, n)),
    decreases n,
{
    if n > 0 {
        lemma_scored_admissible(old, new, pend, cand, n - 1);
        lemma_row_admissible(old, new, pend, cand, n - 1, cand.len() as int);
        let a = scored(old, new, pend, cand, n - 1);
        let b = scored_row(old, new, pend, cand, n - 1, cand.len() as int);
        assert forall|k: int| 0 <= k < (a + b).len() implies admissible(old, new, pend, cand, #[trigger] (a + b)[k]) by {
            if k >= a.len() {
                assert((a + b)[k] == b[k - a.len()]);
            } else {
                assert((a + b)[k] == a[k]);
            }
        }
    }
}

proof fn lemma_row_admissible(old: Seq<Span>, new: Seq<Span>, pend: Seq<int>, cand: Seq<int>, pi: int, k: int)
    requires
        0 <= pi < pend.len(),
        0 <= k <= cand.len(),
    ensures
        all_admissible(old, new, pend, cand, scored_row(old, new, pend, cand, pi, k)),
    decreases k,
{
    if k > 0 {
        lemma_row_admissible(old, new, pend, cand, pi, k - 1);
        let r = scored_row(old, new, pend, cand, pi, k - 1);
        assert forall|x: int| 0 <= x < scored_row(old, new, pend, cand, pi, k).len() implies admissible(old, new, pend, cand, #[trigger] scored_row(old, new, pend, cand, pi, k)[x]) by {
            if x < r.len() {
                assert(scored_row(old, new, pend, cand, pi, k)[x] == r[x]);
            }
        }
    }
}

proof fn lemma_insert_desc_admissible(old: Seq<Span>, new: Seq<Span>, pend: Seq<int>, cand: Seq<int>, s: Seq<(int, int, int)>, x: (int, int, int))
    requires
        all_admissible(old, new, pend, cand, s),
        admissible(old, new, pend, cand, x),
    ensures
        all_admissible(old, new, pend, cand, insert_desc(s, x)),
    decreases s.len(),
{
    if s.len() > 0 && s[0].0 >= x.0 {
        let t = s.drop_first();
        assert(all_admissible(old, new, pend, cand, t)) by {
            assert forall|k: int| 0 <= k < t.len() implies #[trigger] t[k] == s[k + 1] by {}
        }
        lemma_insert_desc_admissible(old, new, pend, cand, t, x);
        let r = seq![s[0]] + insert_desc(t, x);
        assert forall|k: int| 0 <= k < r.len() && k > 0 implies #[trigger] r[k] == insert_desc(t, x)[k - 1] by {}
        assert(r[0] == s[0]);
    } else if s.len() > 0 {
        let r = seq![x] + s;
        assert forall|k: int| 0 <= k < r.len() && k > 0 implies #[trigger] r[k] == s[k - 1] by {}
        assert(r[0] == x);
    }
}

proof fn lemma_sort_desc_admissible(old: Seq<Span>, new: Seq<Span>, pend: Seq<int>, cand: Seq<int>, s: Seq<(int, int, int)>)
    requires
        all_admissible(old, new, pend, cand, s),
    ensures
        all_admissible(old, new, pend, cand, sort_desc(s)),
    decreases s.len(),
{
    if s.len() > 0 {
        let t = s.drop_last();
        assert(all_admissible(old, new, pend, cand, t)) by {
            assert forall|k: int| 0 <= k < t.len() implies #[trigger] t[k] == s[k] by {}
        }
        lemma_sort_desc_admissible(old, new, pend, cand, t);
        assert(s.last() == s[s.len() - 1]);
        lemma_insert_desc_admissible(old, new, pend, cand, sort_desc(t), s.last());
    }
}

/// The greedy matching takes only admitted pairs, and no candidate twice.
proof fn lemma_greedy_admissible(old: Seq<Span>, new: Seq<Span>, pend: Seq<int>, cand: Seq<int>, s: Seq<(int, int, int)>)
    requires
        all_admissible(old, new, pend, cand, s),
    ensures
        forall|pi: int| #[trigger] greedy(s).0.dom().contains(pi) ==> admissible(old, new, pend, cand, (0, pi, greedy(s).0[pi])) && greedy(s).1.contains(greedy(s).0[pi]),
        forall|p1: int, p2: int| #[trigger] greedy(s).0.dom().contains(p1) && #[trigger] greedy(s).0.dom().contains(p2) && p1 != p2 ==> greedy(s).0[p1] != greedy(s).0[p2],
    decreases s.len(),
{
    if s.len() > 0 {
        let t = s.drop_last();
        assert(all_admissible(old, new, pend, cand, t)) by {
            assert forall|k: int| 0 <= k < t.len() implies #[trigger] t[k] == s[k] by {}
        }
        lemma_greedy_admissible(old, new, pend, cand, t);
        assert(s.last() == s[s.len() - 1]);
    }
}

/// A reworded verdict maps an old span onto a new span of the same block kind whose text is
/// at least 11/20 similar, and no new span receives two reworded verdicts.
pub proof fn law_reworded_is_similar_and_unshared(old: Seq<Span>, new: Seq<Span>, cls: Seq<Option<Classification>>)
    ensures
        forall|k: int| 0 <= k < plan(old, new, cls).len() && (#[trigger] plan(old, new, cls)[k]).2 == VerdictKind::Reworded ==> {
            let e = plan(old, new, cls)[k];
            &&& e.1 is Some
            &&& new[e.1.unwrap()].block == old[e.0].block
            &&& similar_enough(spec_similarity(old[e.0].text@, new[e.1.unwrap()].text@))
        },
        forall|k1: int, k2: int| 0 <= k1 < plan(old, new, cls).len() && 0 <= k2 < plan(old, new, cls).len() && k1 != k2
            && (#[trigger] plan(old, new, cls)[k1]).2 == VerdictKind::Reworded && (#[trigger] plan(old, new, cls)[k2]).2 == VerdictKind::Reworded
            ==> plan(old, new, cls)[k1].1 != plan(old, new, cls)[k2].1,
{
    let (u, pend) = pass1(old, new, cls, old.len() as int);
    let cand = candidates(old, new, new.len() as int);
    let sc = scored(old, new, pend, cand, pend.len() as int);
    lemma_scored_admissible(old, new, pend, cand, pend.len() as int);
    lemma_sort_desc_admissible(old, new, pend, cand, sc);
    lemma_greedy_admissible(old, new, pend, cand, sort_desc(sc));
    lemma_candidates(old, new, new.len() as int);
    lemma_pass1(old, new, cls, old.len() as int);
    let m = greedy(sort_desc(sc)).0;
    let a = u.map_values(|x: (int, int)| (x.0, Some(x.1), VerdictKind::Unchanged));
    let b = Seq::new(pend.len(), |pi: int| if m.dom().contains(pi) {
        (pend[pi], Some(cand[m[pi]]), VerdictKind::Reworded)
    } else {
        (pend[pi], None, VerdictKind::Missing)
    });
    let p = plan(old, new, cls);
    assert(p == a + b);
    assert forall|k: int| 0 <= k < p.len() && (#[trigger] p[k]).2 == VerdictKind::Reworded implies {
        let e = p[k];
        &&& e.1 is Some
        &&& new[e.1.unwrap()].block == old[e.0].block
        &&& similar_enough(spec_similarity(old[e.0].text@, new[e.1.unwrap()].text@))
    } by {
        if k < a.len() {
            assert(p[k] == a[k]);
        } else {
            assert(p[k] == b[k - a.len()]);
            assert(admissible(old, new, pend, cand, (0, k - a.len(), m[k - a.len()])));
        }
    }
    assert forall|k1: int, k2: int| 0 <= k1 < p.len() && 0 <= k2 < p.len() && k1 != k2
        && (#[trigger] p[k1]).2 == VerdictKind::Reworded && (#[trigger] p[k2]).2 == VerdictKind::Reworded
        implies p[k1].1 != p[k2].1 by {
        if k1 < a.len() {
            assert(p[k1] == a[k1]);
        } else if k2 < a.len() {
            assert(p[k2] == a[k2]);
        } else {
            let i1 = k1 - a.len();
            let i2 = k2 - a.len();
            assert(p[k1] == b[i1]);
            assert(p[k2] == b[i2]);
            assert(m[i1] != m[i2]);
            assert(0 <= m[i1] < cand.len() && 0 <= m[i2] < cand.len());
            lemma_candidates_increasing(old, new, new.len() as int);
        }
    }
}

proof fn lemma_candidates_increasing(old: Seq<Span>, new: Seq<Span>, k: int)
    requires
        0 <= k <= new.len(),
    ensures
        forall|x: int, y: int| 0 <= x < y < candidates(old, new, k).len() ==> #[trigger] candidates(old, new, k)[x] < #[trigger] candidates(old, new, k)[y],
    decreases k,
{
    if k > 0 {
        lemma_candidates_increasing(old, new, k - 1);
        lemma_candidates(old, new, k - 1);
        let c = candidates(old, new, k - 1);
        assert forall|x: int, y: int| 0 <= x < y < candidates(old, new, k).len() implies #[trigger] candidates(old, new, k)[x] < #[trigger] candidates(old, new, k)[y] by {
            if y < c.len() {
                assert(candidates(old, new, k)[x] == c[x]);
                assert(candidates(old, new, k)[y] == c[y]);
            } else {
                assert(candidates(old, new, k)[x] == c[x]);
            }
        }
    }
}

// ---------- reconcile ----------

spec fn uv(s: Seq<(usize, usize)>) -> Seq<(int, int)> {
    s.map_values(|x: (usize, usize)| (x.0 as int, x.1 as int))
}

spec fn iv(s: Seq<usize>) -> Seq<int> {
    s.map_values(|x: usize| x as int)
}

spec fn sv(s: Seq<(i128, usize, usize)>) -> Seq<(int, int, int)> {
    s.map_values(|x: (i128, usize, usize)| (x.0 as int, x.1 as int, x.2 as int))
}

/// An optional index as an integer.
pub open spec fn oi(o: Option<usize>) -> Option<int> {
    match o {
        Some(j) => Some(j as int),
        None => None,
    }
}

spec fn pv(s: Seq<(usize, Option<usize>, VerdictKind)>) -> Seq<(int, Option<int>, VerdictKind)> {
    s.map_values(|x: (usize, Option<usize>, VerdictKind)| (x.0 as int, oi(x.1), x.2))
}

pub(crate) fn last_with_id_exec(spans: &Vec<Span>, id: &str) -> (r: Option<usize>)
    ensures
        oi(r) == last_with_id(spans@, id@),
{
    let mut k = spans.len();
    proof {
        assert(spans@.take(k as int) =~= spans@);
    }
    while k > 0
        invariant
            k <= spans@.len(),
            last_with_id(spans@, id@) == last_with_id(spans@.take(k as int), id@),
        decreases k,
    {
        proof {
            assert(spans@.take(k as int).drop_last() =~= spans@.take(k as int - 1));
        }
        if same(spans[k - 1].id.as_str(), id) {
            return Some(k - 1);
        }
        k -= 1;
    }
    None
}

/// Map every classified span of `old` onto `new` and propose a verdict per span.
/// `classified[i]` is the classification of `old.spans[i]` (`None`, or a missing entry: not
/// classified, no verdict).
pub fn reconcile(doc: &str, old: &Snapshot, new: &Snapshot, classified: &Vec<Option<Classification>>) -> (r: Reconciliation)
    ensures
        r.doc@ == doc@,
        r.from@ == old.sha@,
        r.to@ == new.sha@,
        r.verdicts@.len() == verdict_plan(old.spans@, new.spans@, classified@).len(),
        forall|k: int| 0 <= k < r.verdicts@.len() ==> verdict_is(#[trigger] r.verdicts@[k], old.spans@, new.spans@, classified@, verdict_plan(old.spans@, new.spans@, classified@)[k]),
        strings_v(r.added@) == added(old.spans@, new.spans@, classified@, new.spans@.len() as int).map_values(|j: int| new.spans@[j].id@),
{
    let ghost os = old.spans@;
    let ghost ns = new.spans@;
    let ghost cl = classified@;
    // pass 1: exact matches
    let mut u: Vec<(usize, usize)> = Vec::new();
    let mut pend: Vec<usize> = Vec::new();
    let mut k: usize = 0;
    while k < old.spans.len()
        invariant
            k <= os.len(),
            os == old.spans@,
            ns == new.spans@,
            cl == classified@,
            (uv(u@), iv(pend@)) == pass1(os, ns, cl, k as int),
        decreases os.len() - k,
    {
        if k < classified.len() && classified[k].is_some() {
            match last_with_id_exec(&new.spans, old.spans[k].id.as_str()) {
                Some(j) => {
                    let ghost u0 = u@;
                    u.push((k, j));
                    proof {
                        assert(uv(u@) =~= uv(u0).push((k as int, j as int)));
                    }
                },
                None => {
                    let ghost p0 = pend@;
                    pend.push(k);
                    proof {
                        assert(iv(pend@) =~= iv(p0).push(k as int));
                    }
                },
            }
        }
        k += 1;
    }
    let ghost up = uv(u@);
    let ghost pp = iv(pend@);
    proof {
        lemma_pass1(os, ns, cl, os.len() as int);
    }
    // candidates: new spans whose id the old snapshot lacks
    let mut cand: Vec<usize> = Vec::new();
    k = 0;
    while k < new.spans.len()
        invariant
            k <= ns.len(),
            os == old.spans@,
            ns == new.spans@,
            iv(cand@) == candidates(os, ns, k as int),
        decreases ns.len() - k,
    {
        if last_with_id_exec(&old.spans, new.spans[k].id.as_str()).is_none() {
            let ghost c0 = cand@;
            cand.push(k);
            proof {
                assert(iv(cand@) =~= iv(c0).push(k as int));
            }
        }
        k += 1;
    }
    let ghost cc = iv(cand@);
    proof {
        lemma_candidates(os, ns, ns.len() as int);
    }
    // pass 2: scored candidate pairs
    let mut sc: Vec<(i128, usize, usize)> = Vec::new();
    let mut pi: usize = 0;
    while pi < pend.len()
        invariant
            pi <= pend@.len(),
            os == old.spans@,
            ns == new.spans@,
            pp == iv(pend@),
            cc == iv(cand@),
            forall|x: int| 0 <= x < pp.len() ==> 0 <= #[trigger] pp[x] < os.len(),
            forall|x: int| 0 <= x < cc.len() ==> 0 <= #[trigger] cc[x] < ns.len(),
            sv(sc@) == scored(os, ns, pp, cc, pi as int),
        decreases pend@.len() - pi,
    {
        let ghost before = sv(sc@);
        let mut ci: usize = 0;
        while ci < cand.len()
            invariant
                pi < pend@.len(),
                ci <= cand@.len(),
                os == old.spans@,
                ns == new.spans@,
                pp == iv(pend@),
                cc == iv(cand@),
                forall|x: int| 0 <= x < pp.len() ==> 0 <= #[trigger] pp[x] < os.len(),
                forall|x: int| 0 <= x < cc.len() ==> 0 <= #[trigger] cc[x] < ns.len(),
                sv(sc@) == before + scored_row(os, ns, pp, cc, pi as int, ci as int),
            decreases cand@.len() - ci,
        {
            proof {
                assert(pp[pi as int] == pend@[pi as int] as int);
                assert(cc[ci as int] == cand@[ci as int] as int);
            }
            let s = &old.spans[pend[pi]];
            let c = &new.spans[cand[ci]];
            if c.block == s.block {
                let sim = similarity(s.text.as_str(), c.text.as_str());
                if REWORD_DEN * sim.num >= REWORD_NUM * sim.den {
                    let dist: u32 = if s.ord >= c.ord { s.ord - c.ord } else { c.ord - s.ord };
                    proof {
                        assert(sim.num * SCORE_SCALE <= 0x1_0000_0000_0000_0000u128 * SCORE_SCALE) by (nonlinear_arith)
                            requires sim.num <= 0x1_0000_0000_0000_0000u128;
                    }
                    let nn: u128 = sim.num * SCORE_SCALE;
                    let q = nn / sim.den;
                    proof {
                        assert(q <= nn) by (nonlinear_arith)
                            requires sim.den >= 1, q == nn / sim.den;
                    }
                    let score: i128 = (q as i128) - (dist as i128) * (POSITION_PENALTY as i128);
                    let ghost s0 = sc@;
                    sc.push((score, pi, ci));
                    proof {
                        assert(sv(sc@) =~= sv(s0).push((score as int, pi as int, ci as int)));
                    }
                }
            }
            ci += 1;
        }
        proof {
            assert(sv(sc@) == scored(os, ns, pp, cc, pi as int + 1));
        }
        pi += 1;
    }
    proof {
        lemma_scored(os, ns, pp, cc, pp.len() as int);
    }
    let ghost scv = sv(sc@);
    // stable sort by descending score
    let mut sorted: Vec<(i128, usize, usize)> = Vec::new();
    let mut x: usize = 0;
    while x < sc.len()
        invariant
            x <= sc@.len(),
            scv == sv(sc@),
            sv(sorted@) == sort_desc(scv.take(x as int)),
        decreases sc@.len() - x,
    {
        let e = sc[x];
        let mut p: usize = 0;
        while p < sorted.len() && sorted[p].0 >= e.0
            invariant
                p <= sorted@.len(),
                forall|y: int| 0 <= y < p ==> (#[trigger] sorted@[y]).0 >= e.0,
            decreases sorted@.len() - p,
        {
            p += 1;
        }
        let ghost s0 = sorted@;
        sorted.insert(p, e);
        proof {
            let ev = (e.0 as int, e.1 as int, e.2 as int);
            assert forall|y: int| 0 <= y < p implies (#[trigger] sv(s0)[y]).0 >= ev.0 by {
                assert(sv(s0)[y].0 == s0[y].0);
            }
            lemma_insert_desc_at(sv(s0), ev, p as int);
            assert(sv(sorted@) =~= sv(s0).insert(p as int, ev));
            assert(scv.take(x as int + 1).drop_last() =~= scv.take(x as int));
            assert(scv.take(x as int + 1).last() == ev);
        }
        x += 1;
    }
    proof {
        assert(scv.take(scv.len() as int) =~= scv);
        lemma_sort_desc_in(scv, pp.len() as int, cc.len() as int);
    }
    let ghost srt = sv(sorted@);
    // greedy matching
    let mut matched: Vec<Option<usize>> = Vec::new();
    let mut i: usize = 0;
    while i < pend.len()
        invariant
            i <= pend@.len(),
            matched@.len() == i,
            forall|y: int| 0 <= y < i ==> (#[trigger] matched@[y]) is None,
        decreases pend@.len() - i,
    {
        matched.push(None);
        i += 1;
    }
    let mut used: Vec<bool> = Vec::new();
    i = 0;
    while i < cand.len()
        invariant
            i <= cand@.len(),
            used@.len() == i,
            forall|y: int| 0 <= y < i ==> !(#[trigger] used@[y]),
        decreases cand@.len() - i,
    {
        used.push(false);
        i += 1;
    }
    x = 0;
    while x < sorted.len()
        invariant
            x <= sorted@.len(),
            srt == sv(sorted@),
            scored_in(srt, pp.len() as int, cc.len() as int),
            pp == iv(pend@),
            cc == iv(cand@),
            matched@.len() == pp.len(),
            used@.len() == cc.len(),
            forall|y: int| 0 <= y < pp.len() ==> oi(#[trigger] matched@[y]) == (if greedy(srt.take(x as int)).0.dom().contains(y) {
                Some(greedy(srt.take(x as int)).0[y])
            } else {
                None::<int>
            }),
            forall|y: int| 0 <= y < cc.len() ==> (#[trigger] used@[y]) == greedy(srt.take(x as int)).1.contains(y),
        decreases sorted@.len() - x,
    {
        let e = sorted[x];
        proof {
            assert(srt.take(x as int + 1).drop_last() =~= srt.take(x as int));
            assert(srt.take(x as int + 1).last() == srt[x as int]);
            assert(srt[x as int] == (e.0 as int, e.1 as int, e.2 as int));
        }
        if matched[e.1].is_none() && !used[e.2] {
            matched.set(e.1, Some(e.2));
            used.set(e.2, true);
        }
        x += 1;
    }
    proof {
        assert(srt.take(srt.len() as int) =~= srt);
        lemma_greedy_in(srt, pp.len() as int, cc.len() as int);
    }
    // the plan
    let mut pl: Vec<(usize, Option<usize>, VerdictKind)> = Vec::new();
    i = 0;
    while i < u.len()
        invariant
            i <= u@.len(),
            up == uv(u@),
            pv(pl@) == up.take(i as int).map_values(|x: (int, int)| (x.0, Some(x.1), VerdictKind::Unchanged)),
        decreases u@.len() - i,
    {
        let ghost p0 = pl@;
        pl.push((u[i].0, Some(u[i].1), VerdictKind::Unchanged));
        proof {
            assert(pv(pl@) =~= pv(p0).push((u@[i as int].0 as int, Some(u@[i as int].1 as int), VerdictKind::Unchanged)));
            assert(up.take(i as int + 1).map_values(|x: (int, int)| (x.0, Some(x.1), VerdictKind::Unchanged))
                =~= up.take(i as int).map_values(|x: (int, int)| (x.0, Some(x.1), VerdictKind::Unchanged)).push((up[i as int].0, Some(up[i as int].1), VerdictKind::Unchanged)));
        }
        i += 1;
    }
    proof {
        assert(up.take(up.len() as int) =~= up);
    }
    let ghost m = greedy(srt).0;
    let ghost a = up.map_values(|x: (int, int)| (x.0, Some(x.1), VerdictKind::Unchanged));
    let ghost b = Seq::new(pp.len(), |pi: int| if m.dom().contains(pi) {
        (pp[pi], Some(cc[m[pi]]), VerdictKind::Reworded)
    } else {
        (pp[pi], None, VerdictKind::Missing)
    });
    i = 0;
    while i < pend.len()
        invariant
            i <= pend@.len(),
            pp == iv(pend@),
            cc == iv(cand@),
            matched@.len() == pp.len(),
            forall|y: int| 0 <= y < pp.len() ==> oi(#[trigger] matched@[y]) == (if m.dom().contains(y) {
                Some(m[y])
            } else {
                None::<int>
            }),
            forall|pi: int| #[trigger] m.dom().contains(pi) ==> 0 <= pi < pp.len() && 0 <= m[pi] < cc.len(),
            b == Seq::new(pp.len(), |pi: int| if m.dom().contains(pi) {
                (pp[pi], Some(cc[m[pi]]), VerdictKind::Reworded)
            } else {
                (pp[pi], None, VerdictKind::Missing)
            }),
            pv(pl@) == a + b.take(i as int),
        decreases pend@.len() - i,
    {
        let ghost p0 = pl@;
        match matched[i] {
            Some(ci) => {
                proof {
                    assert(oi(matched@[i as int]) == Some(ci as int));
                    assert(m.dom().contains(i as int));
                }
                pl.push((pend[i], Some(cand[ci]), VerdictKind::Reworded));
            },
            None => {
                pl.push((pend[i], None, VerdictKind::Missing));
            },
        }
        proof {
            assert(pv(pl@) =~= pv(p0).push(b[i as int]));
            assert(b.take(i as int + 1) =~= b.take(i as int).push(b[i as int]));
        }
        i += 1;
    }
    proof {
        assert(b.take(b.len() as int) =~= b);
        assert(pv(pl@) == plan(os, ns, cl));
        lemma_plan_ok(os, ns, cl);
    }
    let ghost plv = pv(pl@);
    // document order
    let mut sp: Vec<(usize, Option<usize>, VerdictKind)> = Vec::new();
    let mut keys: Vec<u32> = Vec::new();
    x = 0;
    while x < pl.len()
        invariant
            x <= pl@.len(),
            plv == pv(pl@),
            os == old.spans@,
            plan_ok(os, ns, cl, plv),
            pv(sp@) == sort_by_ord(os, plv.take(x as int)),
            keys@.len() == sp@.len(),
            forall|y: int| 0 <= y < sp@.len() ==> #[trigger] keys@[y] as int == ord_key(os, sp@[y].0 as int),
        decreases pl@.len() - x,
    {
        let e = pl[x];
        proof {
            assert(plv[x as int] == (e.0 as int, oi(e.1), e.2));
            lemma_last_with_id(os, os[e.0 as int].id@);
        }
        let key: u32 = match last_with_id_exec(&old.spans, old.spans[e.0].id.as_str()) {
            Some(j) => old.spans[j].ord,
            None => u32::MAX,
        };
        let mut p: usize = 0;
        while p < sp.len() && keys[p] <= key
            invariant
                p <= sp@.len(),
                keys@.len() == sp@.len(),
                forall|y: int| 0 <= y < p ==> (#[trigger] keys@[y]) <= key,
            decreases sp@.len() - p,
        {
            p += 1;
        }
        let ghost s0 = sp@;
        let ghost k0 = keys@;
        sp.insert(p, e);
        keys.insert(p, key);
        proof {
            let ev = (e.0 as int, oi(e.1), e.2);
            assert forall|y: int| 0 <= y < p implies ord_key(os, (#[trigger] pv(s0)[y]).0) <= ord_key(os, ev.0) by {
                assert(k0[y] as int == ord_key(os, s0[y].0 as int));
            }
            if p < s0.len() {
                assert(k0[p as int] as int == ord_key(os, s0[p as int].0 as int));
            }
            lemma_insert_by_ord_at(os, pv(s0), ev, p as int);
            assert(pv(sp@) =~= pv(s0).insert(p as int, ev));
            assert(plv.take(x as int + 1).drop_last() =~= plv.take(x as int));
            assert(plv.take(x as int + 1).last() == ev);
            assert forall|y: int| 0 <= y < sp@.len() implies #[trigger] keys@[y] as int == ord_key(os, sp@[y].0 as int) by {
                if y < p {
                    assert(keys@[y] == k0[y] && sp@[y] == s0[y]);
                } else if y > p {
                    assert(keys@[y] == k0[y - 1] && sp@[y] == s0[y - 1]);
                }
            }
        }
        x += 1;
    }
    proof {
        assert(plv.take(plv.len() as int) =~= plv);
        lemma_sort_by_ord_ok(os, ns, cl, plv);
    }
    let ghost vp = verdict_plan(os, ns, cl);
    // verdicts
    let mut verdicts: Vec<Verdict> = Vec::new();
    x = 0;
    while x < sp.len()
        invariant
            x <= sp@.len(),
            vp == pv(sp@),
            os == old.spans@,
            ns == new.spans@,
            cl == classified@,
            plan_ok(os, ns, cl, vp),
            verdicts@.len() == x,
            forall|y: int| 0 <= y < x ==> verdict_is(#[trigger] verdicts@[y], os, ns, cl, vp[y]),
        decreases sp@.len() - x,
    {
        let e = sp[x];
        proof {
            assert(vp[x as int] == (e.0 as int, oi(e.1), e.2));
        }
        let s = &old.spans[e.0];
        let c = match &classified[e.0] {
            Some(c) => c,
            None => {
                proof {
                    assert(false);
                }
                x += 1;
                continue;
            },
        };
        let (to, to_text, sim) = match e.1 {
            Some(j) => {
                let sim = if e.2 == VerdictKind::Unchanged {
                    Sim { num: 1, den: 1 }
                } else {
                    similarity(s.text.as_str(), new.spans[j].text.as_str())
                };
                (Some(copy_str(new.spans[j].id.as_str())), Some(copy_str(new.spans[j].text.as_str())), sim)
            },
            None => (None, None, Sim { num: 0, den: 1 }),
        };
        let decision = if e.2 == VerdictKind::Unchanged {
            Some(Decision::Accept)
        } else {
            None
        };
        let v = Verdict {
            from: copy_str(s.id.as_str()),
            from_text: copy_str(s.text.as_str()),
            to,
            to_text,
            kind: e.2,
            similarity: sim,
            reqs: copy_strings(&c.0),
            questions: copy_strings(&c.1),
            non_normative: c.2,
            decision,
        };
        verdicts.push(v);
        x += 1;
    }
    // added: new spans with no counterpart and no verdict onto them
    let mut added_ids: Vec<String> = Vec::new();
    let ghost tk = taken(os, ns, cl);
    k = 0;
    while k < new.spans.len()
        invariant
            k <= ns.len(),
            os == old.spans@,
            ns == new.spans@,
            cl == classified@,
            plv == pv(pl@),
            plv == plan(os, ns, cl),
            plan_ok(os, ns, cl, plv),
            tk == taken(os, ns, cl),
            strings_v(added_ids@) == added(os, ns, cl, k as int).map_values(|j: int| ns[j].id@),
        decreases ns.len() - k,
    {
        let id = new.spans[k].id.as_str();
        let mut hit = false;
        let mut y: usize = 0;
        while y < pl.len()
            invariant
                y <= pl@.len(),
                plv == pv(pl@),
                plan_ok(os, ns, cl, plv),
                ns == new.spans@,
                hit == (exists|z: int| 0 <= z < y && ((#[trigger] plv[z]).1 matches Some(j) && ns[j].id@ == id@)),
            decreases pl@.len() - y,
        {
            proof {
                assert(plv[y as int] == (pl@[y as int].0 as int, oi(pl@[y as int].1), pl@[y as int].2));
            }
            match pl[y].1 {
                Some(j) => {
                    if same(new.spans[j].id.as_str(), id) {
                        hit = true;
                    }
                },
                None => {},
            }
            y += 1;
        }
        proof {
            assert(hit == tk.contains(id@));
        }
        if last_with_id_exec(&old.spans, id).is_none() && !hit {
            let ghost a0 = added_ids@;
            added_ids.push(copy_str(id));
            proof {
                assert(strings_v(added_ids@) =~= strings_v(a0).push(id@));
            }
        }
        proof {
            let a1 = added(os, ns, cl, k as int + 1);
            let a0 = added(os, ns, cl, k as int);
            if last_with_id(os, ns[k as int].id@) is None && !tk.contains(ns[k as int].id@) {
                assert(a1.map_values(|j: int| ns[j].id@) =~= a0.map_values(|j: int| ns[j].id@).push(ns[k as int].id@));
            }
        }
        k += 1;
    }
    Reconciliation {
        doc: copy_str(doc),
        from: copy_str(old.sha.as_str()),
        to: copy_str(new.sha.as_str()),
        verdicts,
        added: added_ids,
    }
}

} // verus!
