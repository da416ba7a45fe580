//! Snapshots: an immutable segmented view of one doc at one blob sha.

use crate::blocks::{opt_v, parsed_markdown, pieces_v, segment, spec_segment, PieceView};
use crate::segment::{Block, Piece};
use crate::text::{copy_str, decimal, decimal_u64, lemma_decimal, push_char, push_str, string_of};
use vstd::prelude::*;
use vstd::string::StringSliceAdditionalSpecFns;

verus! {

broadcast use vstd::string::group_string_axioms;

/// Segmenter version: bumping it produces new snapshots, not silently shifted spans.
pub const SEGMENTER_VERSION: u32 = 2;

#[derive(Debug, Clone)]
pub struct Span {
    /// `s-<8 hex>` or `s-<8 hex>-<n>` for repeats.
    pub id: String,
    /// Display order.
    pub ord: u32,
    pub block: Block,
    pub text: String,
    /// Content hash (16 hex) of the normalized text.
    pub h: String,
    /// Byte range in the source doc.
    pub start: usize,
    pub end: usize,
    pub section: Option<String>,
    pub depth: u8,
}

#[derive(Debug, Clone)]
pub struct Snapshot {
    pub doc: String,
    /// git blob sha of the doc content.
    pub sha: String,
    pub segmenter: u32,
    pub spans: Vec<Span>,
}

// ---------- hashing ----------

/// The git object id of a blob holding `content` (what `git hash-object` prints).
pub uninterp spec fn git_blob_id(content: Seq<u8>) -> Seq<char>;

/// SHA-256 of `data`.
pub uninterp spec fn sha256_digest(data: Seq<u8>) -> Seq<u8>;

/// `git2::Oid::hash_object(ObjectType::Blob, content)`, rendered as text (empty if libgit2
/// reports an error). The result is named, not described: it is git's SHA-1 object id.
#[verifier::external_body]
fn git_hash_blob(content: &[u8]) -> (r: String)
    ensures
        r@ == git_blob_id(content@),
{
    git2::Oid::hash_object(git2::ObjectType::Blob, content).map(|o| o.to_string()).unwrap_or_default()
}

/// `sha2::Sha256::digest(data)`: the 32-byte SHA-256 digest.
#[verifier::external_body]
fn sha256(data: &[u8]) -> (r: Vec<u8>)
    ensures
        r@ == sha256_digest(data@),
        r@.len() == 32,
{
    <sha2::Sha256 as sha2::Digest>::digest(data).to_vec()
}

/// Lowercase hex digit for `n < 16`.
pub open spec fn hex_digit(n: nat) -> char {
    if n < 10 {
        ((n + 48) as u32) as char
    } else {
        ((n + 87) as u32) as char
    }
}

/// Lowercase hex encoding, two digits per byte.
pub open spec fn hex_of(b: Seq<u8>) -> Seq<char>
    decreases b.len(),
{
    if b.len() == 0 {
        Seq::<char>::empty()
    } else {
        hex_of(b.drop_last()) + seq![hex_digit((b.last() / 16) as nat), hex_digit((b.last() % 16) as nat)]
    }
}

/// `hex::encode(data)`: each byte as two lowercase hex digits, high nibble first.
#[verifier::external_body]
fn hex_encode(data: &[u8]) -> (r: String)
    ensures
        r@ == hex_of(data@),
{
    hex::encode(data)
}

pub proof fn lemma_hex_len(b: Seq<u8>)
    ensures
        hex_of(b).len() == 2 * b.len(),
    decreases b.len(),
{
    if b.len() > 0 {
        lemma_hex_len(b.drop_last());
    }
}

/// git blob sha1 of `content` — same as `git hash-object`.
pub fn blob_sha(content: &[u8]) -> (r: String)
    ensures
        r@ == git_blob_id(content@),
{
    git_hash_blob(content)
}

/// The content hash of a normalized text: the first 8 bytes of its SHA-256, in hex.
pub open spec fn spec_content_hash(s: Seq<char>) -> Seq<char> {
    hex_of(sha256_digest(vstd::utf8::encode_utf8(s)).take(8))
}

pub fn content_hash(normalized: &str) -> (r: String)
    ensures
        r@ == spec_content_hash(normalized@),
        r@.len() == 16,
{
    let d = sha256(normalized.as_bytes());
    let mut head: Vec<u8> = Vec::new();
    let mut i: usize = 0;
    while i < 8
        invariant
            i <= 8,
            d@.len() == 32,
            head@ == d@.take(i as int),
        decreases 8 - i,
    {
        head.push(d[i]);
        proof {
            assert(d@.take(i as int + 1) =~= d@.take(i as int).push(d@[i as int]));
        }
        i += 1;
    }
    proof {
        lemma_hex_len(head@);
    }
    hex_encode(head.as_slice())
}

// ---------- span identity ----------

/// How many of `hs[0..=i]` equal `hs[i]` (the occurrence number of `hs[i]`).
pub open spec fn occurrence(hs: Seq<Seq<char>>, i: int) -> nat
    decreases i,
{
    count_before(hs, hs[i], i) + 1
}

/// How many of `hs[0..k]` equal `h`.
pub open spec fn count_before(hs: Seq<Seq<char>>, h: Seq<char>, k: int) -> nat
    decreases k,
{
    if k <= 0 {
        0
    } else {
        count_before(hs, h, k - 1) + if hs[k - 1] == h {
            1nat
        } else {
            0nat
        }
    }
}

/// The id of the `n`-th span whose content hash is `h`.
pub open spec fn span_id(h: Seq<char>, n: nat) -> Seq<char> {
    if n == 1 {
        seq!['s', '-'] + h.take(8)
    } else {
        seq!['s', '-'] + h.take(8) + seq!['-'] + decimal(n)
    }
}

/// The content hashes of the pieces' texts, in order.
pub open spec fn piece_hashes(pieces: Seq<PieceView>) -> Seq<Seq<char>> {
    Seq::new(pieces.len(), |i: int| spec_content_hash(pieces[i].text))
}

/// What `Snapshot::build` makes of segmented pieces: span `i` carries the piece's text, block,
/// range, section and depth, display order `i`, the content hash of its text, and an id made
/// of that hash and its occurrence number among spans with the same hash.
pub open spec fn spans_match(pieces: Seq<PieceView>, spans: Seq<Span>) -> bool {
    let hs = piece_hashes(pieces);
    &&& spans.len() == pieces.len()
    &&& forall|i: int|
        0 <= i < spans.len() ==> {
            let s = #[trigger] spans[i];
            &&& s.text@ == pieces[i].text
            &&& s.block == pieces[i].block
            &&& s.start == pieces[i].start
            &&& s.end == pieces[i].end
            &&& opt_v(s.section) == pieces[i].section
            &&& s.depth == pieces[i].depth
            &&& s.ord == i as u32
            &&& s.h@ == hs[i]
            &&& s.id@ == span_id(hs[i], occurrence(hs, i))
        }
}

proof fn lemma_count_before_mono(hs: Seq<Seq<char>>, h: Seq<char>, a: int, b: int)
    requires
        0 <= a <= b,
    ensures
        count_before(hs, h, a) <= count_before(hs, h, b),
    decreases b - a,
{
    if a < b {
        lemma_count_before_mono(hs, h, a, b - 1);
    }
}

/// Span ids are pairwise distinct, provided no two different span texts have content hashes
/// that share their first eight hex digits (each hash has sixteen, as `Snapshot::build`
/// ensures): spans with the
/// same text are told apart by their occurrence number, spans with different texts by their
/// hash. An id reads nothing but the span's text and how many earlier spans have the same hash.
pub proof fn law_span_ids_distinct(pieces: Seq<PieceView>, spans: Seq<Span>)
    requires
        spans_match(pieces, spans),
        forall|i: int| 0 <= i < spans.len() ==> (#[trigger] spans[i]).h@.len() >= 8,
        forall|i: int, j: int|
            0 <= i < pieces.len() && 0 <= j < pieces.len() && spec_content_hash(pieces[i].text) != spec_content_hash(pieces[j].text)
                ==> #[trigger] spec_content_hash(pieces[i].text).take(8) != #[trigger] spec_content_hash(pieces[j].text).take(8),
    ensures
        forall|i: int, j: int| 0 <= i < j < spans.len() ==> #[trigger] spans[i].id@ != #[trigger] spans[j].id@,
{
    let hs = piece_hashes(pieces);
    assert forall|i: int, j: int| 0 <= i < j < spans.len() implies #[trigger] spans[i].id@ != #[trigger] spans[j].id@ by {
        let a = spans[i].id@;
        let b = spans[j].id@;
        assert(a == span_id(hs[i], occurrence(hs, i)));
        assert(b == span_id(hs[j], occurrence(hs, j)));
        assert(hs[i] == spec_content_hash(pieces[i].text));
        assert(hs[j] == spec_content_hash(pieces[j].text));
        let x = hs[i].take(8);
        let y = hs[j].take(8);
        if hs[i] == hs[j] {
            lemma_count_before_mono(hs, hs[i], i + 1, j);
            let ni = occurrence(hs, i);
            let nj = occurrence(hs, j);
            assert(ni < nj);
            lemma_decimal(ni);
            lemma_decimal(nj);
            let p = seq!['s', '-'] + x + seq!['-'];
            if ni == 1 {
                assert(a.len() == 10);
                assert(b =~= p + decimal(nj));
                assert(b.len() > 10);
            } else if a == b {
                assert(a =~= p + decimal(ni));
                assert(b =~= p + decimal(nj));
                assert(decimal(ni) =~= a.skip(p.len() as int));
                assert(decimal(nj) =~= b.skip(p.len() as int));
                assert(false);
            }
        } else {
            assert(x != y);
            assert(x.len() == 8 && y.len() == 8);
            assert(exists|k: int| 0 <= k < 8 && x[k] != y[k]) by {
                if !(exists|k: int| 0 <= k < 8 && x[k] != y[k]) {
                    assert(x =~= y);
                }
            }
            let k = choose|k: int| 0 <= k < 8 && x[k] != y[k];
            assert(a[2 + k] == x[k]);
            assert(b[2 + k] == y[k]);
        }
    }
}

/// Every field of a span, as mathematics.
pub open spec fn span_v(s: Span) -> (Seq<char>, u32, Block, Seq<char>, Seq<char>, usize, usize, Option<Seq<char>>, u8) {
    (s.id@, s.ord, s.block, s.text@, s.h@, s.start, s.end, opt_v(s.section), s.depth)
}

/// Building has no hidden state: any two span lists that `Snapshot::build` may give for the
/// same source agree field for field.
pub proof fn law_build_deterministic(src: Seq<char>, a: Seq<Span>, b: Seq<Span>)
    requires
        spans_match(spec_segment(src, parsed_markdown(src)), a),
        spans_match(spec_segment(src, parsed_markdown(src)), b),
    ensures
        a.map_values(|s: Span| span_v(s)) == b.map_values(|s: Span| span_v(s)),
{
    let p = spec_segment(src, parsed_markdown(src));
    assert forall|i: int| 0 <= i < a.len() implies span_v(#[trigger] a[i]) == span_v(b[i]) by {
        assert(a[i].text@ == p[i].text && b[i].text@ == p[i].text);
        assert(opt_v(a[i].section) == p[i].section && opt_v(b[i].section) == p[i].section);
    }
    assert(a.map_values(|s: Span| span_v(s)) =~= b.map_values(|s: Span| span_v(s)));
}

/// A span's id depends on nothing but its text and how many earlier spans have a text with the
/// same content hash: two spans, of one snapshot or of two, that agree on both have the same
/// id, wherever they stand.
pub proof fn law_span_id_from_text(p1: Seq<PieceView>, s1: Seq<Span>, i: int, p2: Seq<PieceView>, s2: Seq<Span>, j: int)
    requires
        spans_match(p1, s1),
        spans_match(p2, s2),
        0 <= i < s1.len(),
        0 <= j < s2.len(),
        s1[i].text@ == s2[j].text@,
        count_before(piece_hashes(p1), spec_content_hash(s1[i].text@), i) == count_before(piece_hashes(p2), spec_content_hash(s2[j].text@), j),
    ensures
        s1[i].id@ == s2[j].id@,
{
    assert(piece_hashes(p1)[i] == spec_content_hash(s1[i].text@));
    assert(piece_hashes(p2)[j] == spec_content_hash(s2[j].text@));
}

/// The spans of a snapshot built from `src` have pairwise distinct ids, provided no two of its
/// pieces with different content hashes share the first eight hex digits of them.
pub proof fn law_built_span_ids_distinct(src: Seq<char>, spans: Seq<Span>)
    requires
        spans_match(spec_segment(src, parsed_markdown(src)), spans),
        forall|i: int| 0 <= i < spans.len() ==> (#[trigger] spans[i]).h@.len() == 16,
        forall|i: int, j: int|
            0 <= i < spans.len() && 0 <= j < spans.len() && spec_content_hash(spans[i].text@) != spec_content_hash(spans[j].text@)
                ==> #[trigger] spec_content_hash(spans[i].text@).take(8) != #[trigger] spec_content_hash(spans[j].text@).take(8),
    ensures
        forall|i: int, j: int| 0 <= i < j < spans.len() ==> #[trigger] spans[i].id@ != #[trigger] spans[j].id@,
{
    let p = spec_segment(src, parsed_markdown(src));
    assert forall|i: int, j: int|
        0 <= i < p.len() && 0 <= j < p.len() && spec_content_hash(p[i].text) != spec_content_hash(p[j].text)
            implies #[trigger] spec_content_hash(p[i].text).take(8) != #[trigger] spec_content_hash(p[j].text).take(8) by {
        assert(spans[i].text@ == p[i].text && spans[j].text@ == p[j].text);
    }
    law_span_ids_distinct(p, spans);
}

impl Snapshot {
    /// Assign span identity to segmented pieces. Deterministic for identical input.
    pub fn from_pieces(doc: &str, sha: String, pieces: Vec<Piece>) -> (s: Snapshot)
        ensures
            s.doc@ == doc@,
            s.sha == sha,
            s.segmenter == SEGMENTER_VERSION,
            spans_match(pieces_v(pieces@), s.spans@),
            forall|i: int| 0 <= i < s.spans@.len() ==> (#[trigger] s.spans@[i]).h@.len() == 16,
    {
        let ghost hs = Seq::new(pieces@.len(), |i: int| spec_content_hash(pieces@[i].text@));
        let mut hashes: Vec<String> = Vec::new();
        let mut spans: Vec<Span> = Vec::new();
        let mut i: usize = 0;
        while i < pieces.len()
            invariant
                i <= pieces@.len(),
                hs == Seq::new(pieces@.len(), |i: int| spec_content_hash(pieces@[i].text@)),
                hashes@.len() == i,
                forall|j: int| 0 <= j < i ==> #[trigger] hashes@[j]@ == hs[j],
                spans@.len() == i,
                forall|j: int|
                    0 <= j < i ==> {
                        let s = #[trigger] spans@[j];
                        &&& s.text == pieces@[j].text
                        &&& s.block == pieces@[j].block
                        &&& s.start == pieces@[j].start
                        &&& s.end == pieces@[j].end
                        &&& s.section == pieces@[j].section
                        &&& s.depth == pieces@[j].depth
                        &&& s.ord == j as u32
                        &&& s.h@ == hs[j]
                        &&& s.id@ == span_id(hs[j], occurrence(hs, j))
                        &&& s.h@.len() == 16
                    },
            decreases pieces@.len() - i,
        {
            let p = &pieces[i];
            let h = content_hash(p.text.as_str());
            // occurrence number of this hash so far
            let mut n: usize = 1;
            let mut j: usize = 0;
            while j < i
                invariant
                    j <= i,
                    i < pieces@.len(),
                    pieces@.len() <= usize::MAX,
                    hashes@.len() == i,
                    forall|x: int| 0 <= x < i ==> #[trigger] hashes@[x]@ == hs[x],
                    h@ == hs[i as int],
                    n == count_before(hs, hs[i as int], j as int) + 1,
                    n <= j + 1,
                decreases i - j,
            {
                if crate::text::same(hashes[j].as_str(), h.as_str()) {
                    n += 1;
                }
                j += 1;
            }
            let mut id = copy_str("s-");
            let mut k: usize = 0;
            proof {
                reveal_strlit("s-");
                assert(id@ =~= seq!['s', '-'] + h@.take(0));
            }
            let hv = crate::text::chars_of(h.as_str());
            while k < 8
                invariant
                    k <= 8,
                    hv@ == h@,
                    h@.len() == 16,
                    id@ == seq!['s', '-'] + h@.take(k as int),
                decreases 8 - k,
            {
                push_char(&mut id, hv[k]);
                proof {
                    assert(seq!['s', '-'] + h@.take(k as int + 1) =~= (seq!['s', '-'] + h@.take(k as int)).push(h@[k as int]));
                }
                k += 1;
            }
            if n != 1 {
                push_char(&mut id, '-');
                let d = decimal_u64(n as u64);
                push_str(&mut id, d.as_str());
            }
            proof {
                reveal_strlit("s-");
                assert(id@ =~= span_id(hs[i as int], occurrence(hs, i as int)));
            }
            let span = Span {
                id,
                ord: #[verifier::truncate] (i as u32),
                block: p.block,
                text: p.text.clone(),
                h: copy_str(h.as_str()),
                start: p.start,
                end: p.end,
                section: p.section.clone(),
                depth: p.depth,
            };
            hashes.push(h);
            spans.push(span);
            i += 1;
        }
        proof {
            let pv = pieces_v(pieces@);
            assert(piece_hashes(pv) =~= hs);
        }
        Snapshot { doc: copy_str(doc), sha, segmenter: SEGMENTER_VERSION, spans }
    }

    /// Segment `src` and assign span identity. Deterministic for identical input.
    pub fn build(doc: &str, src: &str) -> (s: Snapshot)
        ensures
            s.doc@ == doc@,
            s.sha@ == git_blob_id(vstd::utf8::encode_utf8(src@)),
            s.segmenter == SEGMENTER_VERSION,
            spans_match(spec_segment(src@, parsed_markdown(src@)), s.spans@),
            forall|i: int| 0 <= i < s.spans@.len() ==> (#[trigger] s.spans@[i]).h@.len() == 16,
    {
        let sha = blob_sha(src.as_bytes());
        let pieces = segment(src);
        Snapshot::from_pieces(doc, sha, pieces)
    }

    /// The span with id `id`, if any.
    pub fn span(&self, id: &str) -> (r: Option<&Span>)
        ensures
            r matches Some(s) ==> exists|i: int| 0 <= i < self.spans@.len() && self.spans@[i] == *s && s.id@ == id@,
            r is None ==> forall|i: int| 0 <= i < self.spans@.len() ==> #[trigger] self.spans@[i].id@ != id@,
    {
        let mut i: usize = 0;
        while i < self.spans.len()
            invariant
                i <= self.spans@.len(),
                forall|j: int| 0 <= j < i ==> #[trigger] self.spans@[j].id@ != id@,
            decreases self.spans@.len() - i,
        {
            if crate::text::same(self.spans[i].id.as_str(), id) {
                return Some(&self.spans[i]);
            }
            i += 1;
        }
        None
    }

    /// Span ids with their spans, in display order.
    pub fn index(&self) -> (r: Vec<(&str, &Span)>)
        ensures
            r@.len() == self.spans@.len(),
            forall|i: int| 0 <= i < r@.len() ==> (#[trigger] r@[i]).0@ == self.spans@[i].id@ && *r@[i].1 == self.spans@[i],
    {
        let mut out: Vec<(&str, &Span)> = Vec::new();
        let mut i: usize = 0;
        while i < self.spans.len()
            invariant
                i <= self.spans@.len(),
                out@.len() == i,
                forall|j: int| 0 <= j < i ==> (#[trigger] out@[j]).0@ == self.spans@[j].id@ && *out@[j].1 == self.spans@[j],
            decreases self.spans@.len() - i,
        {
            let s = &self.spans[i];
            out.push((s.id.as_str(), s));
            i += 1;
        }
        out
    }
}

} // verus!
