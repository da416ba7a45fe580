//! Markdown-aware sentence segmentation.
//!
//! Prose paragraphs are sentence-split; headings, list items, table rows, code blocks and
//! HTML blocks are single spans. Every span carries its byte range in the source so the UI can
//! render source slices and reconciliation can diff on text.

use crate::text::{chars_of, is_digit, is_digit_exec, is_upper_ascii, lower_seq, lower_vec, push_char, string_of, is_ascii_alnum};
pub use crate::blocks::{segment, segment_events};
use vstd::prelude::*;
use vstd::string::StringSliceAdditionalSpecFns;

verus! {

broadcast use vstd::string::group_string_axioms;

#[derive(Debug, Clone, Copy, PartialEq, Eq, Structural)]
pub enum Block {
    Para,
    Heading,
    Li,
    Row,
    Code,
    Html,
}

/// A segmented unit before identity is assigned (see `snapshot::Snapshot`).
#[derive(Debug, Clone)]
pub struct Piece {
    pub block: Block,
    pub text: String,
    /// Byte range `start..end` in the source.
    pub start: usize,
    pub end: usize,
    /// Nearest preceding heading text, if any.
    pub section: Option<String>,
    /// Heading level for `Block::Heading`, list depth for `Block::Li`, else 0.
    pub depth: u8,
}

// ---------- characters ----------

/// `char::is_whitespace`: the Unicode `White_Space` property.
pub open spec fn is_ws(c: char) -> bool {
    let u = c as u32;
    ||| 9 <= u <= 13
    ||| u == 32
    ||| u == 0x85
    ||| u == 0xA0
    ||| u == 0x1680
    ||| 0x2000 <= u <= 0x200A
    ||| u == 0x2028
    ||| u == 0x2029
    ||| u == 0x202F
    ||| u == 0x205F
    ||| u == 0x3000
}

pub fn is_ws_exec(c: char) -> (b: bool)
    ensures
        b == is_ws(c),
{
    let u = c as u32;
    (9 <= u && u <= 13) || u == 32 || u == 0x85 || u == 0xA0 || u == 0x1680 || (0x2000 <= u && u
        <= 0x200A) || u == 0x2028 || u == 0x2029 || u == 0x202F || u == 0x205F || u == 0x3000
}

/// Whitespace as seen one UTF-8 byte at a time: only the ASCII whitespace characters (the
/// leading byte of any other character is not whitespace when read as Latin-1).
pub open spec fn byte_ws(c: char) -> bool {
    let u = c as u32;
    9 <= u <= 13 || u == 32
}

/// `char::is_uppercase` (the Unicode `Uppercase` property).
pub uninterp spec fn unicode_uppercase(c: char) -> bool;

/// `char::is_alphanumeric` (Unicode `Alphabetic` or `Numeric`).
pub uninterp spec fn unicode_alphanumeric(c: char) -> bool;

/// `char::is_uppercase`. For ASCII input this is exactly `A`..=`Z`, as std documents.
#[verifier::external_body]
pub(crate) fn is_uppercase(c: char) -> (b: bool)
    ensures
        b == unicode_uppercase(c),
        (c as u32) < 128 ==> (b <==> is_upper_ascii(c)),
{
    c.is_uppercase()
}

/// `char::is_alphanumeric`. For ASCII input this is exactly the letters and digits.
#[verifier::external_body]
pub(crate) fn is_alphanumeric(c: char) -> (b: bool)
    ensures
        b == unicode_alphanumeric(c),
        (c as u32) < 128 ==> (b <==> is_ascii_alnum(c)),
{
    c.is_alphanumeric()
}

/// The byte length of `s` is a `usize` (true of every string in memory).
pub open spec fn fits(s: &str) -> bool {
    s.spec_bytes().len() <= usize::MAX
}

/// Every string in memory fits: its byte length is a `usize`.
pub fn str_fits(s: &str)
    ensures
        fits(s),
{
    let b = s.as_bytes();
    let _n = b.len();
}

/// Bytes in the UTF-8 encoding of `c`.
pub open spec fn blen(c: char) -> nat {
    let u = c as u32;
    if u < 0x80 {
        1
    } else if u < 0x800 {
        2
    } else if u < 0x10000 {
        3
    } else {
        4
    }
}

/// Byte length of the UTF-8 encoding of `t`.
pub open spec fn utf8_len(t: Seq<char>) -> nat
    decreases t.len(),
{
    if t.len() == 0 {
        0
    } else {
        utf8_len(t.drop_last()) + blen(t.last())
    }
}

/// Byte offset of character `i` of `t`.
pub open spec fn boff(t: Seq<char>, i: int) -> nat {
    utf8_len(t.take(i))
}

proof fn lemma_utf8_len_prepend(c: char, t: Seq<char>)
    ensures
        utf8_len(seq![c] + t) == blen(c) + utf8_len(t),
    decreases t.len(),
{
    if t.len() > 0 {
        lemma_utf8_len_prepend(c, t.drop_last());
        assert((seq![c] + t).drop_last() =~= seq![c] + t.drop_last());
        assert((seq![c] + t).last() == t.last());
    } else {
        assert(seq![c] + t =~= seq![c]);
        assert(seq![c].drop_last() =~= Seq::<char>::empty());
        assert(seq![c].last() == c);
        assert(utf8_len(Seq::<char>::empty()) == 0);
        assert(t =~= Seq::<char>::empty());
    }
}

/// The byte length of a string is the sum of its characters' encoded widths.
pub proof fn lemma_utf8_len(t: Seq<char>)
    ensures
        vstd::utf8::encode_utf8(t).len() == utf8_len(t),
    decreases t.len(),
{
    if t.len() > 0 {
        lemma_utf8_len(t.drop_first());
        lemma_utf8_len_prepend(t[0], t.drop_first());
        assert(seq![t[0]] + t.drop_first() =~= t);
        vstd::utf8::char_is_scalar(t[0]);
    }
}

pub proof fn lemma_boff_step(t: Seq<char>, i: int)
    requires
        0 <= i < t.len(),
    ensures
        boff(t, i + 1) == boff(t, i) + blen(t[i]),
{
    assert(t.take(i + 1).drop_last() =~= t.take(i));
}

pub proof fn lemma_boff_mono(t: Seq<char>, i: int, j: int)
    requires
        0 <= i <= j <= t.len(),
    ensures
        boff(t, i) <= boff(t, j),
    decreases j - i,
{
    if i < j {
        lemma_boff_mono(t, i, j - 1);
        lemma_boff_step(t, j - 1);
    }
}

fn blen_exec(c: char) -> (n: usize)
    ensures
        n == blen(c),
{
    let u = c as u32;
    if u < 0x80 {
        1
    } else if u < 0x800 {
        2
    } else if u < 0x10000 {
        3
    } else {
        4
    }
}

/// Byte offsets of every character of `s`, plus the total length at the end.
pub(crate) fn byte_offsets(s: &str, t: &Vec<char>) -> (r: Vec<usize>)
    requires
        t@ == s@,
        fits(s),
    ensures
        r@.len() == t@.len() + 1,
        forall|i: int| 0 <= i <= t@.len() ==> r@[i] == boff(t@, i),
{
    proof {
        lemma_utf8_len(t@);
        assert(t@.take(t@.len() as int) =~= t@);
        assert(s.spec_bytes().len() == utf8_len(t@));
    }
    let total = s.len();
    let mut out: Vec<usize> = Vec::new();
    let mut acc: usize = 0;
    let mut i: usize = 0;
    proof {
        assert(t@.take(0) =~= Seq::<char>::empty());
    }
    while i < t.len()
        invariant
            i <= t@.len(),
            total == boff(t@, t@.len() as int),
            acc == boff(t@, i as int),
            out@.len() == i,
            forall|j: int| 0 <= j < i ==> out@[j] == boff(t@, j),
        decreases t@.len() - i,
    {
        out.push(acc);
        proof {
            lemma_boff_step(t@, i as int);
            lemma_boff_mono(t@, i as int + 1, t@.len() as int);
        }
        acc = acc + blen_exec(t[i]);
        i += 1;
    }
    out.push(acc);
    out
}

// ---------- whitespace normalisation ----------

/// Scanning state after a prefix: finished runs of non-whitespace, and the run being read.
pub open spec fn scan_runs(s: Seq<char>) -> (Seq<Seq<char>>, Seq<char>)
    decreases s.len(),
{
    if s.len() == 0 {
        (Seq::<Seq<char>>::empty(), Seq::<char>::empty())
    } else {
        let (ws, cur) = scan_runs(s.drop_last());
        let c = s.last();
        if !is_ws(c) {
            (ws, cur.push(c))
        } else if cur.len() > 0 {
            (ws.push(cur), Seq::<char>::empty())
        } else {
            (ws, cur)
        }
    }
}

/// `str::split_whitespace`: the maximal runs of non-whitespace characters, in order.
pub open spec fn ws_runs(s: Seq<char>) -> Seq<Seq<char>> {
    let (ws, cur) = scan_runs(s);
    if cur.len() > 0 {
        ws.push(cur)
    } else {
        ws
    }
}

/// The pieces joined with single spaces.
pub open spec fn join_space(ws: Seq<Seq<char>>) -> Seq<char>
    decreases ws.len(),
{
    if ws.len() == 0 {
        Seq::<char>::empty()
    } else if ws.len() == 1 {
        ws[0]
    } else {
        join_space(ws.drop_last()) + seq![' '] + ws.last()
    }
}

pub open spec fn spec_normalize_ws(s: Seq<char>) -> Seq<char> {
    join_space(ws_runs(s))
}

/// Collapse every whitespace run to one space and drop leading/trailing whitespace.
pub fn normalize_ws(s: &str) -> (r: String)
    ensures
        r@ == spec_normalize_ws(s@),
{
    let v = chars_of(s);
    normalize_chars(&v)
}

pub fn normalize_chars(v: &Vec<char>) -> (r: String)
    ensures
        r@ == spec_normalize_ws(v@),
{
    let mut out = String::new();
    let mut any = false;
    let mut cur: Vec<char> = Vec::new();
    let mut i: usize = 0;
    let ghost mut runs: Seq<Seq<char>> = Seq::empty();
    while i < v.len()
        invariant
            i <= v@.len(),
            (runs, cur@) == scan_runs(v@.take(i as int)),
            out@ == join_space(runs),
            any == (runs.len() > 0),
        decreases v@.len() - i,
    {
        let c = v[i];
        proof {
            assert(v@.take(i as int + 1).drop_last() =~= v@.take(i as int));
        }
        if !is_ws_exec(c) {
            cur.push(c);
        } else if cur.len() > 0 {
            append_run(&mut out, &cur, any);
            proof {
                lemma_join_push(runs, cur@);
                runs = runs.push(cur@);
            }
            any = true;
            cur = Vec::new();
        }
        i += 1;
    }
    proof {
        assert(v@.take(v@.len() as int) =~= v@);
    }
    if cur.len() > 0 {
        append_run(&mut out, &cur, any);
        proof {
            lemma_join_push(runs, cur@);
        }
    }
    out
}

proof fn lemma_join_push(runs: Seq<Seq<char>>, w: Seq<char>)
    ensures
        join_space(runs.push(w)) == if runs.len() == 0 {
            w
        } else {
            join_space(runs) + seq![' '] + w
        },
{
    assert(runs.push(w).drop_last() =~= runs);
    if runs.len() == 0 {
        assert(runs.push(w)[0] == w);
    }
}

/// Append `run` to `out`, after a space when `out` already holds a run.
fn append_run(out: &mut String, run: &Vec<char>, space: bool)
    ensures
        final(out)@ == if space {
            old(out)@ + seq![' '] + run@
        } else {
            old(out)@ + run@
        },
{
    let ghost start = out@;
    if space {
        push_char(out, ' ');
    }
    let ghost base = out@;
    let mut j: usize = 0;
    while j < run.len()
        invariant
            j <= run@.len(),
            out@ == base + run@.take(j as int),
        decreases run@.len() - j,
    {
        push_char(out, run[j]);
        proof {
            assert(base + run@.take(j as int + 1) =~= (base + run@.take(j as int)).push(run@[j as int]));
        }
        j += 1;
    }
    proof {
        assert(run@.take(run@.len() as int) =~= run@);
        if space {
            assert(base =~= start + seq![' ']);
        }
    }
}


// ---------- sentence splitting ----------

pub open spec fn punct(c: char) -> bool {
    c == '.' || c == '!' || c == '?'
}

/// Closing quotes and brackets absorbed after sentence punctuation.
pub open spec fn closer(c: char) -> bool {
    c == '"' || c == '\'' || c == ')' || c == ']' || c == '`' || c == '*' || c == '_'
}

/// Characters, besides uppercase letters and digits, that may open a sentence.
pub open spec fn opener(c: char) -> bool {
    c == '"' || c == '\'' || c == '(' || c == '[' || c == '\u{201C}' || c == '\u{2018}' || c
        == '`' || c == '*' || c == '_' || c == '-' || c == '\u{2014}' || c == '\u{2013}'
}

pub open spec fn starts_like_sentence(c: char) -> bool {
    unicode_uppercase(c) || is_digit(c) || opener(c)
}

/// Last index of the run of sentence punctuation starting at `i`.
pub open spec fn run_end(t: Seq<char>, i: int) -> int
    decreases t.len() - i,
{
    if 0 <= i && i + 1 < t.len() && punct(t[i + 1]) {
        run_end(t, i + 1)
    } else {
        i
    }
}

/// Last index of the run of closers after `k`.
pub open spec fn closer_end(t: Seq<char>, k: int) -> int
    decreases t.len() - k,
{
    if 0 <= k && k + 1 < t.len() && closer(t[k + 1]) {
        closer_end(t, k + 1)
    } else {
        k
    }
}

/// First index at or after `m` that is not (byte-level) whitespace.
pub open spec fn skip_ws(t: Seq<char>, m: int) -> int
    decreases t.len() - m,
{
    if 0 <= m < t.len() && byte_ws(t[m]) {
        skip_ws(t, m + 1)
    } else {
        m
    }
}

/// The characters after the last whitespace or `(` of `b`.
pub open spec fn tail_word(b: Seq<char>) -> Seq<char>
    decreases b.len(),
{
    if b.len() == 0 {
        b
    } else if is_ws(b.last()) || b.last() == '(' {
        Seq::<char>::empty()
    } else {
        tail_word(b.drop_last()).push(b.last())
    }
}

/// Characters trimmed off a candidate abbreviation.
pub open spec fn junk(c: char) -> bool {
    !unicode_alphanumeric(c) && c != '.'
}

pub open spec fn trim_front(s: Seq<char>) -> Seq<char>
    decreases s.len(),
{
    if s.len() > 0 && junk(s[0]) {
        trim_front(s.drop_first())
    } else {
        s
    }
}

pub open spec fn trim_back(s: Seq<char>) -> Seq<char>
    decreases s.len(),
{
    if s.len() > 0 && junk(s.last()) {
        trim_back(s.drop_last())
    } else {
        s
    }
}

/// `w` is the abbreviation `a`, or ends with `.` followed by `a`.
pub open spec fn abbrev_hit(w: Seq<char>, a: Seq<char>) -> bool {
    w == a || (w.len() >= a.len() + 1 && w.skip(w.len() - a.len() - 1) == seq!['.'] + a)
}

pub open spec fn abbrev_word(w: Seq<char>) -> bool {
    abbrev_hit(w, "e.g"@)
    || abbrev_hit(w, "i.e"@)
    || abbrev_hit(w, "etc"@)
    || abbrev_hit(w, "vs"@)
    || abbrev_hit(w, "cf"@)
    || abbrev_hit(w, "fig"@)
    || abbrev_hit(w, "no"@)
    || abbrev_hit(w, "approx"@)
    || abbrev_hit(w, "incl"@)
    || abbrev_hit(w, "excl"@)
    || abbrev_hit(w, "resp"@)
    || abbrev_hit(w, "dept"@)
    || abbrev_hit(w, "est"@)
    || abbrev_hit(w, "min"@)
    || abbrev_hit(w, "max"@)
    || abbrev_hit(w, "sec"@)
    || abbrev_hit(w, "mr"@)
    || abbrev_hit(w, "mrs"@)
    || abbrev_hit(w, "ms"@)
    || abbrev_hit(w, "dr"@)
    || abbrev_hit(w, "prof"@)
    || abbrev_hit(w, "st"@)
    || abbrev_hit(w, "jr"@)
    || abbrev_hit(w, "sr"@)
    || abbrev_hit(w, "inc"@)
    || abbrev_hit(w, "ltd"@)
    || abbrev_hit(w, "co"@)
    || abbrev_hit(w, "corp"@)
    || abbrev_hit(w, "ver"@)
    || abbrev_hit(w, "rev"@)
    || abbrev_hit(w, "ch"@)
    || abbrev_hit(w, "sect"@)
    || abbrev_hit(w, "para"@)
    || abbrev_hit(w, "vol"@)
    || abbrev_hit(w, "pp"@)
    || abbrev_hit(w, "ed"@)
    || abbrev_hit(w, "eds"@)
    || abbrev_hit(w, "al"@)
    || abbrev_hit(w, "u.s"@)
    || abbrev_hit(w, "u.k"@)
}

/// Does the text ending at a `.` end with a known abbreviation (`e.g.`, `Fig.`, `U.S.` …)?
pub open spec fn spec_is_abbreviation(upto_dot: Seq<char>) -> bool {
    let w = lower_seq(trim_back(trim_front(tail_word(upto_dot.drop_last()))));
    w.len() > 0 && abbrev_word(w)
}

/// Is there a sentence boundary after the punctuation at `i` (run and closers ending at `k`),
/// for a sentence that began at `start`?
pub open spec fn is_boundary(t: Seq<char>, start: int, i: int, k: int) -> bool {
    let at_end = k + 1 >= t.len();
    let next_ws = !at_end && byte_ws(t[k + 1]);
    &&& at_end || next_ws
    &&& at_end || {
        let m = skip_ws(t, k + 1);
        m >= t.len() || {
            let c = t[i];
            let sls = starts_like_sentence(t[m]);
            (sls && c != '.') || (c == '.' && sls && !spec_is_abbreviation(
                t.subrange(start, i + 1),
            ))
        }
    }
}

pub proof fn lemma_ends(t: Seq<char>, i: int)
    requires
        0 <= i < t.len(),
    ensures
        i <= run_end(t, i) < t.len(),
        run_end(t, i) <= closer_end(t, run_end(t, i)) < t.len(),
{
    lemma_run_end(t, i);
    lemma_closer_end(t, run_end(t, i));
}

pub proof fn lemma_run_end(t: Seq<char>, i: int)
    requires
        0 <= i < t.len(),
    ensures
        i <= run_end(t, i) < t.len(),
    decreases t.len() - i,
{
    if i + 1 < t.len() && punct(t[i + 1]) {
        lemma_run_end(t, i + 1);
    }
}

pub proof fn lemma_closer_end(t: Seq<char>, k: int)
    requires
        0 <= k < t.len(),
    ensures
        k <= closer_end(t, k) < t.len(),
    decreases t.len() - k,
{
    if k + 1 < t.len() && closer(t[k + 1]) {
        lemma_closer_end(t, k + 1);
    }
}

/// Sentences (as character ranges) of `t` from position `i` on, the current sentence having
/// begun at `start`.
pub open spec fn sentences(t: Seq<char>, start: int, i: int) -> Seq<(int, int)>
    decreases t.len() - i,
{
    if i >= t.len() || i < 0 {
        if start < t.len() {
            seq![(start, t.len() as int)]
        } else {
            Seq::empty()
        }
    } else if punct(t[i]) {
        proof {
            lemma_ends(t, i);
        }
        let k = closer_end(t, run_end(t, i));
        if is_boundary(t, start, i, k) {
            seq![(start, k + 1)] + sentences(t, k + 1, k + 1)
        } else {
            sentences(t, start, k + 1)
        }
    } else {
        sentences(t, start, i + 1)
    }
}

/// Character ranges mapped to UTF-8 byte ranges.
pub open spec fn to_bytes(t: Seq<char>, rs: Seq<(int, int)>) -> Seq<(usize, usize)> {
    rs.map_values(|p: (int, int)| (boff(t, p.0) as usize, boff(t, p.1) as usize))
}

/// What `split_sentences` returns for text `t`: byte ranges of its sentences.
pub open spec fn spec_split_sentences(t: Seq<char>) -> Seq<(usize, usize)> {
    to_bytes(t, sentences(t, 0, 0))
}

fn abbrev_hit_exec(w: &Vec<char>, a: &str) -> (b: bool)
    ensures
        b == abbrev_hit(w@, a@),
{
    let av = chars_of(a);
    if crate::text::seq_eq(w, &av) {
        return true;
    }
    if w.len() <= av.len() {
        return false;
    }
    let off = w.len() - av.len() - 1;
    if w[off] != '.' {
        proof {
            assert(w@.skip(off as int)[0] != (seq!['.'] + av@)[0]);
        }
        return false;
    }
    let mut j: usize = 0;
    let limit = w.len();
    while j < av.len()
        invariant
            limit == w@.len(),
            off + 1 + av@.len() == w@.len(),
            av@ == a@,
            w@ != av@,
            w@[off as int] == '.',
            j <= av@.len(),
            forall|x: int| 0 <= x < j ==> w@[off + 1 + x] == av@[x],
        decreases av@.len() - j,
    {
        if w[off + 1 + j] != av[j] {
            proof {
                let sk = w@.skip(off as int);
                let pat = seq!['.'] + av@;
                assert(sk[j + 1] == w@[off + 1 + j]);
                assert(pat[j + 1] == av@[j as int]);
                assert(sk != pat);
            }
            return false;
        }
        j += 1;
    }
    proof {
        assert(w@.skip(off as int) =~= seq!['.'] + av@);
    }
    true
}

fn abbrev_word_exec(w: &Vec<char>) -> (b: bool)
    ensures
        b == abbrev_word(w@),
{
    abbrev_hit_exec(w, "e.g")
        || abbrev_hit_exec(w, "i.e")
        || abbrev_hit_exec(w, "etc")
        || abbrev_hit_exec(w, "vs")
        || abbrev_hit_exec(w, "cf")
        || abbrev_hit_exec(w, "fig")
        || abbrev_hit_exec(w, "no")
        || abbrev_hit_exec(w, "approx")
        || abbrev_hit_exec(w, "incl")
        || abbrev_hit_exec(w, "excl")
        || abbrev_hit_exec(w, "resp")
        || abbrev_hit_exec(w, "dept")
        || abbrev_hit_exec(w, "est")
        || abbrev_hit_exec(w, "min")
        || abbrev_hit_exec(w, "max")
        || abbrev_hit_exec(w, "sec")
        || abbrev_hit_exec(w, "mr")
        || abbrev_hit_exec(w, "mrs")
        || abbrev_hit_exec(w, "ms")
        || abbrev_hit_exec(w, "dr")
        || abbrev_hit_exec(w, "prof")
        || abbrev_hit_exec(w, "st")
        || abbrev_hit_exec(w, "jr")
        || abbrev_hit_exec(w, "sr")
        || abbrev_hit_exec(w, "inc")
        || abbrev_hit_exec(w, "ltd")
        || abbrev_hit_exec(w, "co")
        || abbrev_hit_exec(w, "corp")
        || abbrev_hit_exec(w, "ver")
        || abbrev_hit_exec(w, "rev")
        || abbrev_hit_exec(w, "ch")
        || abbrev_hit_exec(w, "sect")
        || abbrev_hit_exec(w, "para")
        || abbrev_hit_exec(w, "vol")
        || abbrev_hit_exec(w, "pp")
        || abbrev_hit_exec(w, "ed")
        || abbrev_hit_exec(w, "eds")
        || abbrev_hit_exec(w, "al")
        || abbrev_hit_exec(w, "u.s")
        || abbrev_hit_exec(w, "u.k")
}

/// Does the text ending at a `.` end with an abbreviation, initial, or number-ish token?
fn is_abbreviation(u: &Vec<char>) -> (b: bool)
    requires
        u@.len() > 0,
    ensures
        b == spec_is_abbreviation(u@),
{
    // the word before the dot
    let n = u.len() - 1;
    let mut p: usize = n;
    while p > 0 && !(is_ws_exec(u[p - 1]) || u[p - 1] == '(')
        invariant
            p <= n,
            n + 1 == u@.len(),
            tail_word(u@.take(n as int)) == tail_word(u@.take(p as int)) + u@.subrange(
                p as int,
                n as int,
            ),
        decreases p,
    {
        proof {
            let b = u@.take(p as int);
            assert(b.drop_last() =~= u@.take(p as int - 1));
            assert(b.last() == u@[p as int - 1]);
            assert(u@.subrange(p as int - 1, n as int) =~= seq![u@[p as int - 1]] + u@.subrange(
                p as int,
                n as int,
            ));
            assert(tail_word(b) == tail_word(u@.take(p as int - 1)).push(u@[p as int - 1]));
            assert(tail_word(u@.take(p as int - 1)).push(u@[p as int - 1]) + u@.subrange(
                p as int,
                n as int,
            ) =~= tail_word(u@.take(p as int - 1)) + u@.subrange(p as int - 1, n as int));
        }
        p -= 1;
    }
    proof {
        if p > 0 {
            let b = u@.take(p as int);
            assert(b.drop_last() =~= u@.take(p as int - 1));
            assert(tail_word(b) =~= Seq::<char>::empty());
        } else {
            assert(u@.take(0) =~= Seq::<char>::empty());
        }
        assert(u@.drop_last() =~= u@.take(n as int));
    }
    // trim junk on both sides
    let mut a = p;
    let mut z = n;
    proof {
        assert(u@.subrange(p as int, n as int) =~= Seq::<char>::empty() + u@.subrange(p as int, n as int));
    }
    while a < z && !is_alphanumeric(u[a]) && u[a] != '.'
        invariant
            p <= a <= z,
            z == n,
            n + 1 == u@.len(),
            trim_front(u@.subrange(p as int, n as int)) == trim_front(u@.subrange(a as int, n as int)),
        decreases z - a,
    {
        proof {
            let s = u@.subrange(a as int, n as int);
            assert(s.drop_first() =~= u@.subrange(a as int + 1, n as int));
        }
        a += 1;
    }
    proof {
        assert(trim_front(u@.subrange(a as int, n as int)) == u@.subrange(a as int, n as int));
    }
    while z > a && !is_alphanumeric(u[z - 1]) && u[z - 1] != '.'
        invariant
            a <= z <= n,
            n + 1 == u@.len(),
            trim_back(u@.subrange(a as int, n as int)) == trim_back(u@.subrange(a as int, z as int)),
        decreases z - a,
    {
        proof {
            let s = u@.subrange(a as int, z as int);
            assert(s.drop_last() =~= u@.subrange(a as int, z as int - 1));
        }
        z -= 1;
    }
    proof {
        assert(trim_back(u@.subrange(a as int, z as int)) == u@.subrange(a as int, z as int));
    }
    let mut word: Vec<char> = Vec::new();
    let mut q = a;
    while q < z
        invariant
            a <= q <= z,
            z <= u@.len(),
            word@ == u@.subrange(a as int, q as int),
        decreases z - q,
    {
        word.push(u[q]);
        proof {
            assert(u@.subrange(a as int, q as int + 1) =~= u@.subrange(a as int, q as int).push(u@[q as int]));
        }
        q += 1;
    }
    let w = lower_vec(&word);
    if w.len() == 0 {
        return false;
    }
    abbrev_word_exec(&w)
}


fn byte_ws_exec(c: char) -> (b: bool)
    ensures
        b == byte_ws(c),
{
    let u = c as u32;
    (9 <= u && u <= 13) || u == 32
}

fn punct_exec(c: char) -> (b: bool)
    ensures
        b == punct(c),
{
    c == '.' || c == '!' || c == '?'
}

fn closer_exec(c: char) -> (b: bool)
    ensures
        b == closer(c),
{
    c == '"' || c == '\'' || c == ')' || c == ']' || c == '`' || c == '*' || c == '_'
}

fn opener_exec(c: char) -> (b: bool)
    ensures
        b == opener(c),
{
    c == '"' || c == '\'' || c == '(' || c == '[' || c == '\u{201C}' || c == '\u{2018}' || c
        == '`' || c == '*' || c == '_' || c == '-' || c == '\u{2014}' || c == '\u{2013}'
}

pub(crate) fn sub_chars(t: &Vec<char>, a: usize, b: usize) -> (r: Vec<char>)
    requires
        a <= b <= t@.len(),
    ensures
        r@ == t@.subrange(a as int, b as int),
{
    let mut out: Vec<char> = Vec::new();
    let mut q = a;
    while q < b
        invariant
            a <= q <= b,
            b <= t@.len(),
            out@ == t@.subrange(a as int, q as int),
        decreases b - q,
    {
        out.push(t[q]);
        proof {
            assert(t@.subrange(a as int, q as int + 1) =~= t@.subrange(a as int, q as int).push(
                t@[q as int],
            ));
        }
        q += 1;
    }
    out
}

/// Byte ranges of sentences in `text`. Conservative: only splits on `.!?` followed by
/// whitespace and something that looks like a sentence start; skips common abbreviations.
pub fn split_sentences(text: &str) -> (r: Vec<(usize, usize)>)
    ensures
        r@ == spec_split_sentences(text@),
{
    str_fits(text);
    let t = chars_of(text);
    let offs = byte_offsets(text, &t);
    let cs = sentence_spans(&t);
    proof {
        law_sentences_tile(t@);
    }
    let ghost rs = sentences(t@, 0, 0);
    let mut out: Vec<(usize, usize)> = Vec::new();
    let mut x: usize = 0;
    while x < cs.len()
        invariant
            x <= cs@.len(),
            cs@.len() == rs.len(),
            rs == sentences(t@, 0, 0),
            tiles(rs, 0, t@.len() as int),
            offs@.len() == t@.len() + 1,
            forall|i: int| 0 <= i <= t@.len() ==> offs@[i] == boff(t@, i),
            forall|i: int| 0 <= i < rs.len() ==> (#[trigger] cs@[i]).0 == rs[i].0 && cs@[i].1 == rs[i].1,
            out@ == to_bytes(t@, rs.take(x as int)),
        decreases cs@.len() - x,
    {
        let (a, b) = cs[x];
        proof {
            assert(0 <= rs[x as int].0 && rs[x as int].1 <= t@.len());
            assert(rs[x as int].0 < rs[x as int].1);
        }
        out.push((offs[a], offs[b]));
        proof {
            assert(rs.take(x as int + 1) =~= rs.take(x as int).push(rs[x as int]));
            assert(to_bytes(t@, rs.take(x as int + 1)) =~= to_bytes(t@, rs.take(x as int)).push(
                (boff(t@, rs[x as int].0) as usize, boff(t@, rs[x as int].1) as usize),
            ));
        }
        x += 1;
    }
    proof {
        assert(rs.take(rs.len() as int) =~= rs);
    }
    out
}

/// Sentence ranges of `t` as character positions.
pub fn sentence_spans(t: &Vec<char>) -> (r: Vec<(usize, usize)>)
    ensures
        r@.len() == sentences(t@, 0, 0).len(),
        forall|i: int| 0 <= i < r@.len() ==> (#[trigger] r@[i]).0 == sentences(t@, 0, 0)[i].0 && r@[i].1 == sentences(t@, 0, 0)[i].1,
{
    let n = t.len();
    let mut out: Vec<(usize, usize)> = Vec::new();
    let mut start: usize = 0;
    let mut i: usize = 0;
    let ghost mut done: Seq<(int, int)> = Seq::empty();
    while i < n
        invariant
            n == t@.len(),
            start <= i <= n,
            done + sentences(t@, start as int, i as int) == sentences(t@, 0, 0),
            out@.len() == done.len(),
            forall|x: int| 0 <= x < done.len() ==> (#[trigger] out@[x]).0 == done[x].0 && out@[x].1 == done[x].1,
        decreases n - i,
    {
        let c = t[i];
        if punct_exec(c) {
            proof {
                lemma_ends(t@, i as int);
            }
            let mut j = i;
            while j + 1 < n && punct_exec(t[j + 1])
                invariant
                    n == t@.len(),
                    i <= j < n,
                    run_end(t@, i as int) == run_end(t@, j as int),
                decreases n - j,
            {
                j += 1;
            }
            let mut k = j;
            while k + 1 < n && closer_exec(t[k + 1])
                invariant
                    n == t@.len(),
                    j <= k < n,
                    j == run_end(t@, i as int),
                    closer_end(t@, j as int) == closer_end(t@, k as int),
                decreases n - k,
            {
                k += 1;
            }
            let at_end = k + 1 >= n;
            let next_ws = !at_end && byte_ws_exec(t[k + 1]);
            let mut boundary = false;
            if at_end {
                boundary = true;
            } else if next_ws {
                let mut m = k + 1;
                while m < n && byte_ws_exec(t[m])
                    invariant
                        n == t@.len(),
                        k + 1 <= m <= n,
                        skip_ws(t@, k as int + 1) == skip_ws(t@, m as int),
                    decreases n - m,
                {
                    m += 1;
                }
                if m >= n {
                    boundary = true;
                } else {
                    let nc = t[m];
                    let sls = is_uppercase(nc) || is_digit_exec(nc) || opener_exec(nc);
                    if sls && c != '.' {
                        boundary = true;
                    } else if c == '.' && sls {
                        let u = sub_chars(t, start, i + 1);
                        boundary = !is_abbreviation(&u);
                    }
                }
            }
            proof {
                assert(boundary == is_boundary(t@, start as int, i as int, k as int));
            }
            if boundary {
                out.push((start, k + 1));
                proof {
                    let d2 = done.push((start as int, k as int + 1));
                    assert(d2 + sentences(t@, k as int + 1, k as int + 1) =~= done + (seq![
                        (start as int, k as int + 1),
                    ] + sentences(t@, k as int + 1, k as int + 1)));
                    done = d2;
                }
                start = k + 1;
                i = k + 1;
            } else {
                i = k + 1;
            }
        } else {
            i += 1;
        }
    }
    if start < n {
        out.push((start, n));
        proof {
            let d2 = done.push((start as int, n as int));
            assert(sentences(t@, start as int, i as int) =~= seq![(start as int, n as int)]);
            assert(done + sentences(t@, start as int, i as int) =~= d2);
        }
    } else {
        proof {
            assert(done + sentences(t@, start as int, i as int) =~= done);
        }
    }
    out
}

// ---------- laws ----------

/// The sentences of a text tile it: non-empty, adjacent ranges from `start` to the end.
pub open spec fn tiles(rs: Seq<(int, int)>, start: int, end: int) -> bool {
    &&& (rs.len() == 0 <==> start >= end)
    &&& rs.len() > 0 ==> rs[0].0 == start && rs.last().1 == end
    &&& forall|x: int| 0 <= x < rs.len() ==> #[trigger] rs[x].0 < rs[x].1
    &&& forall|x: int| 0 <= x < rs.len() ==> start <= #[trigger] rs[x].0 && rs[x].1 <= end
    &&& forall|x: int| 0 <= x < rs.len() - 1 ==> #[trigger] rs[x].1 == rs[x + 1].0
}

proof fn lemma_sentences_tile(t: Seq<char>, start: int, i: int)
    requires
        0 <= start <= i,
        start <= t.len(),
    ensures
        tiles(sentences(t, start, i), start, t.len() as int),
    decreases t.len() - i,
{
    if i >= t.len() {
    } else if punct(t[i]) {
        lemma_ends(t, i);
        let k = closer_end(t, run_end(t, i));
        if is_boundary(t, start, i, k) {
            lemma_sentences_tile(t, k + 1, k + 1);
            let rest = sentences(t, k + 1, k + 1);
            let all = seq![(start, k + 1)] + rest;
            assert forall|x: int| 0 <= x < all.len() implies #[trigger] all[x].0 < all[x].1 by {
                if x > 0 {
                    assert(all[x] == rest[x - 1]);
                }
            }
            assert forall|x: int| 0 <= x < all.len() implies start <= #[trigger] all[x].0
                && all[x].1 <= t.len() by {
                if x > 0 {
                    assert(all[x] == rest[x - 1]);
                }
            }
            assert forall|x: int| 0 <= x < all.len() - 1 implies #[trigger] all[x].1 == all[x
                + 1].0 by {
                if x > 0 {
                    assert(all[x] == rest[x - 1]);
                    assert(all[x + 1] == rest[x]);
                }
            }
        } else {
            lemma_sentences_tile(t, start, k + 1);
        }
    } else {
        lemma_sentences_tile(t, start, i + 1);
    }
}

/// The sentence ranges of a paragraph cover it exactly: they start at byte 0, each ends where
/// the next begins, none is empty, and the last ends at the end of the text.
pub proof fn law_sentences_tile(t: Seq<char>)
    ensures
        tiles(sentences(t, 0, 0), 0, t.len() as int),
        forall|x: int| 0 <= x < sentences(t, 0, 0).len() ==> boff(t, #[trigger] sentences(t, 0, 0)[x].0) < boff(t, sentences(t, 0, 0)[x].1),
{
    lemma_sentences_tile(t, 0, 0);
    let rs = sentences(t, 0, 0);
    assert forall|x: int| 0 <= x < rs.len() implies boff(t, #[trigger] rs[x].0) < boff(t, rs[x].1) by {
        assert(rs[x].0 < rs[x].1);
        assert(0 <= rs[x].0 && rs[x].1 <= t.len());
        lemma_boff_step(t, rs[x].0);
        lemma_boff_mono(t, rs[x].0 + 1, rs[x].1);
    }
}

// ---------- abbreviations are not sentence ends ----------

/// The abbreviations after which a `.` does not end a sentence.
pub open spec fn listed_abbreviation(a: Seq<char>) -> bool {
    a == "e.g"@ || a == "i.e"@ || a == "etc"@ || a == "vs"@ || a == "cf"@ || a == "fig"@ ||
    a == "no"@ || a == "approx"@ || a == "incl"@ || a == "excl"@ || a == "resp"@ || a == "dept"@ ||
    a == "est"@ || a == "min"@ || a == "max"@ || a == "sec"@ || a == "mr"@ || a == "mrs"@ ||
    a == "ms"@ || a == "dr"@ || a == "prof"@ || a == "st"@ || a == "jr"@ || a == "sr"@ ||
    a == "inc"@ || a == "ltd"@ || a == "co"@ || a == "corp"@ || a == "ver"@ || a == "rev"@ ||
    a == "ch"@ || a == "sect"@ || a == "para"@ || a == "vol"@ || a == "pp"@ || a == "ed"@ ||
    a == "eds"@ || a == "al"@ || a == "u.s"@ || a == "u.k"@
}

/// Every listed abbreviation is lowercase letters and dots, and begins and ends with a letter.
proof fn lemma_listed_shape(a: Seq<char>)
    requires
        listed_abbreviation(a),
    ensures
        a.len() > 0,
        crate::text::is_lower(a[0]),
        crate::text::is_lower(a[a.len() - 1]),
        forall|q: int| 0 <= q < a.len() ==> crate::text::is_lower(#[trigger] a[q]) || a[q] == '.',
{
    reveal_strlit("e.g");
    reveal_strlit("i.e");
    reveal_strlit("etc");
    reveal_strlit("vs");
    reveal_strlit("cf");
    reveal_strlit("fig");
    reveal_strlit("no");
    reveal_strlit("approx");
    reveal_strlit("incl");
    reveal_strlit("excl");
    reveal_strlit("resp");
    reveal_strlit("dept");
    reveal_strlit("est");
    reveal_strlit("min");
    reveal_strlit("max");
    reveal_strlit("sec");
    reveal_strlit("mr");
    reveal_strlit("mrs");
    reveal_strlit("ms");
    reveal_strlit("dr");
    reveal_strlit("prof");
    reveal_strlit("st");
    reveal_strlit("jr");
    reveal_strlit("sr");
    reveal_strlit("inc");
    reveal_strlit("ltd");
    reveal_strlit("co");
    reveal_strlit("corp");
    reveal_strlit("ver");
    reveal_strlit("rev");
    reveal_strlit("ch");
    reveal_strlit("sect");
    reveal_strlit("para");
    reveal_strlit("vol");
    reveal_strlit("pp");
    reveal_strlit("ed");
    reveal_strlit("eds");
    reveal_strlit("al");
    reveal_strlit("u.s");
    reveal_strlit("u.k");
}

/// The characters from `p` through the end of the punctuation run at `p` and the closers after
/// it are all punctuation or closers.
proof fn lemma_run_chars(t: Seq<char>, p: int)
    requires
        0 <= p < t.len(),
    ensures
        forall|q: int| p < q <= closer_end(t, run_end(t, p)) ==> punct(#[trigger] t[q]) || closer(t[q]),
{
    lemma_run_end_chars(t, p);
    lemma_ends(t, p);
    lemma_closer_end_chars(t, run_end(t, p));
}

proof fn lemma_run_end_chars(t: Seq<char>, p: int)
    requires
        0 <= p < t.len(),
    ensures
        forall|q: int| p < q <= run_end(t, p) ==> punct(#[trigger] t[q]),
    decreases t.len() - p,
{
    if p + 1 < t.len() && punct(t[p + 1]) {
        lemma_run_end_chars(t, p + 1);
    }
}

proof fn lemma_closer_end_chars(t: Seq<char>, k: int)
    requires
        0 <= k < t.len(),
    ensures
        forall|q: int| k < q <= closer_end(t, k) ==> closer(#[trigger] t[q]),
    decreases t.len() - k,
{
    if k + 1 < t.len() && closer(t[k + 1]) {
        lemma_closer_end_chars(t, k + 1);
    }
}

/// A run of punctuation from `i` up to `m`: `run_end` stops before `m`.
proof fn lemma_run_end_at(t: Seq<char>, i: int, m: int)
    requires
        0 <= i < m < t.len(),
        forall|q: int| i < q < m ==> punct(#[trigger] t[q]),
        !punct(t[m]),
    ensures
        run_end(t, i) == m - 1,
    decreases m - i,
{
    if i + 1 < m {
        lemma_run_end_at(t, i + 1, m);
    }
}

proof fn lemma_closer_end_at(t: Seq<char>, k: int, n: int)
    requires
        0 <= k < n < t.len(),
        forall|q: int| k < q < n ==> closer(#[trigger] t[q]),
        !closer(t[n]),
    ensures
        closer_end(t, k) == n - 1,
    decreases n - k,
{
    if k + 1 < n {
        lemma_closer_end_at(t, k + 1, n);
    }
}

proof fn lemma_skip_ws_at(t: Seq<char>, n: int, j: int)
    requires
        0 <= n <= j < t.len(),
        forall|q: int| n <= q < j ==> byte_ws(#[trigger] t[q]),
        !byte_ws(t[j]),
    ensures
        skip_ws(t, n) == j,
    decreases j - n,
{
    if n < j {
        lemma_skip_ws_at(t, n + 1, j);
    }
}

/// `tail_word` of text whose last `r`-onward part has no whitespace or `(`, preceded by
/// whitespace, `(` or nothing, is that part.
proof fn lemma_tail_word_at(b: Seq<char>, r: int)
    requires
        0 <= r <= b.len(),
        forall|q: int| r <= q < b.len() ==> !is_ws(#[trigger] b[q]) && b[q] != '(',
        r == 0 || is_ws(b[r - 1]) || b[r - 1] == '(',
    ensures
        tail_word(b) == b.skip(r),
    decreases b.len(),
{
    if b.len() == 0 {
        assert(b.skip(r) =~= b);
    } else if r == b.len() {
        assert(b.skip(r) =~= Seq::<char>::empty());
    } else {
        lemma_tail_word_at(b.drop_last(), r);
        assert(b.drop_last().skip(r).push(b.last()) =~= b.skip(r));
    }
}

/// Scanning on through characters that are not punctuation changes nothing.
proof fn lemma_scan_plain(t: Seq<char>, start: int, q: int, j: int)
    requires
        0 <= q <= j < t.len(),
        forall|x: int| q <= x <= j ==> !punct(#[trigger] t[x]),
    ensures
        sentences(t, start, q) == sentences(t, start, j + 1),
    decreases j - q,
{
    if q < j {
        lemma_scan_plain(t, start, q + 1, j);
    }
}

/// Every sentence found from position `q` on ends at or after `q`, or at the end of the text.
proof fn lemma_ends_from(t: Seq<char>, start: int, q: int)
    requires
        0 <= q,
    ensures
        forall|x: int| 0 <= x < sentences(t, start, q).len() ==> (#[trigger] sentences(t, start, q)[x]).1 >= q || sentences(t, start, q)[x].1 == t.len(),
    decreases t.len() - q,
{
    if q < t.len() {
        if punct(t[q]) {
            lemma_ends(t, q);
            let k = closer_end(t, run_end(t, q));
            if is_boundary(t, start, q, k) {
                lemma_ends_from(t, k + 1, k + 1);
                let rest = sentences(t, k + 1, k + 1);
                let all = seq![(start, k + 1)] + rest;
                assert(sentences(t, start, q) == all);
                assert forall|x: int| 0 <= x < all.len() implies (#[trigger] all[x]).1 >= q || all[x].1 == t.len() by {
                    if x > 0 {
                        assert(all[x] == rest[x - 1]);
                    }
                }
            } else {
                lemma_ends_from(t, start, k + 1);
                assert(sentences(t, start, q) == sentences(t, start, k + 1));
            }
        } else {
            lemma_ends_from(t, start, q + 1);
            assert(sentences(t, start, q) == sentences(t, start, q + 1));
        }
    } else {
        if start < t.len() {
            assert(sentences(t, start, q) == seq![(start, t.len() as int)]);
        } else {
            assert(sentences(t, start, q).len() == 0);
        }
    }
}

/// Scanning from position `p`, in a sentence begun at `start`, cuts no sentence between the
/// dot at `i` and position `j`, when the dot is no boundary for any start up to `w0`.
proof fn lemma_scan_to_dot(t: Seq<char>, i: int, w0: int, j: int, start: int, p: int)
    requires
        0 <= start <= w0 < i < j < t.len(),
        start <= p <= i,
        t[i] == '.',
        forall|q: int| w0 <= q < i ==> !byte_ws(#[trigger] t[q]),
        !punct(t[i - 1]) && !closer(t[i - 1]),
        forall|s0: int| 0 <= s0 <= w0 ==> !#[trigger] is_boundary(t, s0, i, closer_end(t, run_end(t, i))),
        closer_end(t, run_end(t, i)) < j,
        forall|x: int| closer_end(t, run_end(t, i)) < x <= j ==> !punct(#[trigger] t[x]),
    ensures
        forall|x: int|
            0 <= x < sentences(t, start, p).len() && (#[trigger] sentences(t, start, p)[x]).0 <= i < sentences(t, start, p)[x].1
                ==> j < sentences(t, start, p)[x].1,
    decreases i - p,
{
    if p == i {
        lemma_ends(t, i);
        let k = closer_end(t, run_end(t, i));
        assert(!is_boundary(t, start, i, k));
        assert(sentences(t, start, i) == sentences(t, start, k + 1));
        lemma_scan_plain(t, start, k + 1, j);
        lemma_ends_from(t, start, j + 1);
    } else if punct(t[p]) {
        lemma_ends(t, p);
        let k2 = closer_end(t, run_end(t, p));
        lemma_run_chars(t, p);
        assert(p != i - 1);
        assert(k2 < i - 1) by {
            if k2 >= i - 1 {
                assert(punct(t[i - 1]) || closer(t[i - 1]));
            }
        }
        if is_boundary(t, start, p, k2) {
            assert(byte_ws(t[k2 + 1]));
            assert(k2 + 1 < w0) by {
                if k2 + 1 >= w0 {
                    assert(!byte_ws(t[k2 + 1]));
                }
            }
            lemma_scan_to_dot(t, i, w0, j, k2 + 1, k2 + 1);
            let rest = sentences(t, k2 + 1, k2 + 1);
            let all = seq![(start, k2 + 1)] + rest;
            assert(sentences(t, start, p) == all);
            assert forall|x: int| 0 <= x < all.len() && (#[trigger] all[x]).0 <= i < all[x].1 implies j < all[x].1 by {
                if x > 0 {
                    assert(all[x] == rest[x - 1]);
                }
            }
        } else {
            lemma_scan_to_dot(t, i, w0, j, start, k2 + 1);
            assert(sentences(t, start, p) == sentences(t, start, k2 + 1));
        }
    } else {
        lemma_scan_to_dot(t, i, w0, j, start, p + 1);
        assert(sentences(t, start, p) == sentences(t, start, p + 1));
    }
}

/// A `.` right after one of the listed abbreviations does not end a sentence. Whenever the word
/// before the dot, read in lowercase, is the abbreviation `a` (standing after whitespace, `(`
/// or at the start of the text, its first and last letters alphanumeric as `char::is_alphanumeric`
/// says of every ASCII letter), and after the dot come only more sentence punctuation (up to `m`),
/// closing quotes or brackets (up to `n`) and then whitespace before the next other character
/// `t[j]`, the sentence
/// that holds the dot also holds `t[j]`. (`split_sentences` returns these sentences as byte
/// ranges.)
pub proof fn law_abbreviation_dot_ends_no_sentence(t: Seq<char>, i: int, a: Seq<char>, m: int, n: int, j: int)
    requires
        listed_abbreviation(a),
        a.len() <= i < j < t.len(),
        t[i] == '.',
        lower_seq(t.subrange(i - a.len(), i)) == a,
        i == a.len() || is_ws(t[i - a.len() - 1]) || t[i - a.len() - 1] == '(',
        unicode_alphanumeric(t[i - a.len()]),
        unicode_alphanumeric(t[i - 1]),
        i < m <= n < j,
        forall|q: int| i < q < m ==> punct(#[trigger] t[q]),
        forall|q: int| m <= q < n ==> closer(#[trigger] t[q]),
        forall|q: int| n <= q < j ==> byte_ws(#[trigger] t[q]),
        !byte_ws(t[j]) && !punct(t[j]) && !closer(t[j]),
    ensures
        forall|x: int|
            0 <= x < sentences(t, 0, 0).len() && (#[trigger] sentences(t, 0, 0)[x]).0 <= i < sentences(t, 0, 0)[x].1
                ==> j < sentences(t, 0, 0)[x].1,
{
    lemma_listed_shape(a);
    let w0 = i - a.len();
    let word = t.subrange(w0, i);
    assert forall|q: int| w0 <= q < i implies (crate::text::is_lower(crate::text::lower_of(#[trigger] t[q])) || crate::text::lower_of(t[q]) == '.') by {
        assert(lower_seq(word)[q - w0] == crate::text::lower_of(word[q - w0]));
        assert(word[q - w0] == t[q]);
        assert(a[q - w0] == lower_seq(word)[q - w0]);
    }
    assert forall|q: int| w0 <= q < i implies !is_ws(#[trigger] t[q]) && t[q] != '(' && !byte_ws(t[q]) by {
        assert(crate::text::is_lower(crate::text::lower_of(t[q])) || crate::text::lower_of(t[q]) == '.');
    }
    assert(!punct(t[i - 1]) && !closer(t[i - 1])) by {
        assert(lower_seq(word)[a.len() - 1] == crate::text::lower_of(t[i - 1]));
        assert(crate::text::is_lower(a[a.len() - 1]));
    }
    lemma_run_end_at(t, i, m);
    lemma_closer_end_at(t, m - 1, n);
    let k = closer_end(t, run_end(t, i));
    assert(k == n - 1);
    lemma_skip_ws_at(t, n, j);
    assert forall|x: int| k < x <= j implies !punct(#[trigger] t[x]) by {
        if x < j {
            assert(byte_ws(t[x]));
        }
    }
    // the word before the dot is the abbreviation, whichever start the sentence had
    assert(word.len() > 0);
    assert(!junk(word[0]));
    assert(!junk(word[word.len() - 1]));
    assert(trim_front(word) == word);
    assert(trim_back(word) == word);
    assert(abbrev_word(a));
    assert forall|s0: int| 0 <= s0 <= w0 implies !#[trigger] is_boundary(t, s0, i, k) by {
        let b = t.subrange(s0, i + 1).drop_last();
        assert(b =~= t.subrange(s0, i));
        assert forall|q: int| w0 - s0 <= q < b.len() implies !is_ws(#[trigger] b[q]) && b[q] != '(' by {
            assert(b[q] == t[s0 + q]);
        }
        if s0 < w0 {
            assert(b[w0 - s0 - 1] == t[w0 - 1]);
        }
        lemma_tail_word_at(b, w0 - s0);
        assert(b.skip(w0 - s0) =~= word);
        assert(spec_is_abbreviation(t.subrange(s0, i + 1)));
    }
    lemma_scan_to_dot(t, i, w0, j, 0, 0);
}

} // verus!
