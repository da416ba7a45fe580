//! Object identifiers: `<type>~<slug>~<rev>`.
//!
//! `type`  = `[a-z][a-z0-9]*`
//! `slug`  = `[a-z0-9]+(-[a-z0-9]+)*`   (no leading/trailing/consecutive hyphens)
//! `rev`   = `[1-9][0-9]*`

use crate::text::{
    all_digits, chars_of, copy_str, decimal, decimal_string, digit_char, digits_value, is_digit,
    is_ascii_alnum, is_ascii_alnum_exec, is_digit_exec, is_lower, is_lower_exec, is_upper_ascii,
    lemma_decimal, lemma_digit_char, lower_char, lower_of, push_char, push_str, seq_eq, string_of,
};
use vstd::prelude::*;

verus! {

broadcast use vstd::string::group_string_axioms;

#[derive(Debug, Clone, PartialEq, Eq)]
pub enum IdError {
    /// The id does not have exactly three `~`-separated parts.
    Shape(String),
    /// Bad type (want `[a-z][a-z0-9]*`).
    Type(String),
    /// Bad slug (want `[a-z0-9]+(-[a-z0-9]+)*`).
    Slug(String),
    /// Bad rev (want a positive integer without leading zero).
    Rev(String),
}

/// A `type~slug` pair without rev — what coverage and grouping key on.
#[derive(Debug, Clone, PartialEq, Eq, Hash, PartialOrd, Ord)]
pub struct Key {
    pub ty: String,
    pub slug: String,
}

#[derive(Debug, Clone, PartialEq, Eq, Hash, PartialOrd, Ord)]
pub struct Id {
    pub ty: String,
    pub slug: String,
    pub rev: u32,
}

// ---------- the grammar ----------

pub open spec fn type_char(c: char) -> bool {
    is_lower(c) || is_digit(c)
}

pub open spec fn slug_char(c: char) -> bool {
    is_lower(c) || is_digit(c) || c == '-'
}

/// `[a-z][a-z0-9]*`
pub open spec fn spec_valid_type(s: Seq<char>) -> bool {
    &&& s.len() > 0
    &&& is_lower(s[0])
    &&& forall|i: int| 0 <= i < s.len() ==> #[trigger] type_char(s[i])
}

/// `[a-z0-9]+(-[a-z0-9]+)*`: non-empty, lowercase alphanumerics and hyphens, no hyphen at
/// either end and no two hyphens in a row.
pub open spec fn spec_valid_slug(s: Seq<char>) -> bool {
    &&& s.len() > 0
    &&& s[0] != '-'
    &&& s.last() != '-'
    &&& forall|i: int| 0 <= i < s.len() ==> #[trigger] slug_char(s[i])
    &&& forall|i: int| 0 <= i < s.len() - 1 ==> !(#[trigger] s[i] == '-' && s[i + 1] == '-')
}

/// `[1-9][0-9]*` that fits in a `u32`.
pub open spec fn spec_valid_rev(s: Seq<char>) -> Option<u32> {
    if s.len() > 0 && s[0] != '0' && all_digits(s) && digits_value(s) <= u32::MAX {
        Some(digits_value(s) as u32)
    } else {
        None
    }
}

/// `str::split('~')`: the pieces between tildes, in order (always at least one piece).
pub open spec fn split_tilde(s: Seq<char>) -> Seq<Seq<char>>
    decreases s.len(),
{
    if s.len() == 0 {
        seq![Seq::<char>::empty()]
    } else {
        let rest = split_tilde(s.drop_last());
        if s.last() == '~' {
            rest.push(Seq::<char>::empty())
        } else {
            rest.update(rest.len() - 1, rest.last().push(s.last()))
        }
    }
}

/// What parsing `s` as an id yields.
pub open spec fn spec_parse(s: Seq<char>) -> Result<(Seq<char>, Seq<char>, u32), ()> {
    let parts = split_tilde(s);
    if parts.len() != 3 {
        Err(())
    } else if !spec_valid_type(parts[0]) {
        Err(())
    } else if !spec_valid_slug(parts[1]) {
        Err(())
    } else if spec_valid_rev(parts[2]) is None {
        Err(())
    } else {
        Ok((parts[0], parts[1], spec_valid_rev(parts[2])->0))
    }
}

/// Which error parsing `s` yields, when it fails: 0 shape, 1 type, 2 slug, 3 rev.
pub open spec fn spec_parse_error(s: Seq<char>) -> int {
    let parts = split_tilde(s);
    if parts.len() != 3 {
        0
    } else if !spec_valid_type(parts[0]) {
        1
    } else if !spec_valid_slug(parts[1]) {
        2
    } else {
        3
    }
}

pub open spec fn error_kind(e: IdError) -> int {
    match e {
        IdError::Shape(_) => 0,
        IdError::Type(_) => 1,
        IdError::Slug(_) => 2,
        IdError::Rev(_) => 3,
    }
}

pub open spec fn error_text(e: IdError) -> Seq<char> {
    match e {
        IdError::Shape(s) => s@,
        IdError::Type(s) => s@,
        IdError::Slug(s) => s@,
        IdError::Rev(s) => s@,
    }
}

/// The text form `type~slug~rev`.
pub open spec fn render(ty: Seq<char>, slug: Seq<char>, rev: u32) -> Seq<char> {
    ty + seq!['~'] + slug + seq!['~'] + decimal(rev as nat)
}

impl Id {
    /// The text form of this id.
    pub open spec fn text(&self) -> Seq<char> {
        render(self.ty@, self.slug@, self.rev)
    }

    /// Type, slug and rev all satisfy the grammar.
    pub open spec fn well_formed(&self) -> bool {
        spec_valid_type(self.ty@) && spec_valid_slug(self.slug@) && self.rev >= 1
    }
}

// ---------- exec ----------

pub fn valid_type(s: &str) -> (b: bool)
    ensures
        b == spec_valid_type(s@),
{
    let v = chars_of(s);
    valid_type_chars(&v)
}

fn valid_type_chars(v: &Vec<char>) -> (b: bool)
    ensures
        b == spec_valid_type(v@),
{
    if v.len() == 0 || !is_lower_exec(v[0]) {
        return false;
    }
    let mut i: usize = 0;
    while i < v.len()
        invariant
            i <= v@.len(),
            forall|j: int| 0 <= j < i ==> #[trigger] type_char(v@[j]),
        decreases v@.len() - i,
    {
        if !(is_lower_exec(v[i]) || is_digit_exec(v[i])) {
            proof {
                assert(!type_char(v@[i as int]));
            }
            return false;
        }
        i += 1;
    }
    true
}

pub fn valid_slug(s: &str) -> (b: bool)
    ensures
        b == spec_valid_slug(s@),
{
    let v = chars_of(s);
    valid_slug_chars(&v)
}

pub fn valid_slug_chars(v: &Vec<char>) -> (b: bool)
    ensures
        b == spec_valid_slug(v@),
{
    let n = v.len();
    if n == 0 || v[0] == '-' || v[n - 1] == '-' {
        return false;
    }
    let mut i: usize = 0;
    while i < n
        invariant
            n == v@.len(),
            i <= n,
            forall|j: int| 0 <= j < i ==> #[trigger] slug_char(v@[j]),
            forall|j: int| 0 <= j < i && j < n - 1 ==> !(#[trigger] v@[j] == '-' && v@[j + 1]
                == '-'),
        decreases n - i,
    {
        let c = v[i];
        if !(is_lower_exec(c) || is_digit_exec(c) || c == '-') {
            proof {
                assert(!slug_char(v@[i as int]));
            }
            return false;
        }
        if i + 1 < n && c == '-' && v[i + 1] == '-' {
            proof {
                assert(v@[i as int] == '-' && v@[i + 1] == '-');
            }
            return false;
        }
        i += 1;
    }
    true
}

/// A revision number: `[1-9][0-9]*` that fits in a `u32`.
pub fn valid_rev(s: &str) -> (r: Option<u32>)
    ensures
        r == spec_valid_rev(s@),
{
    valid_rev_chars(&chars_of(s))
}

fn valid_rev_chars(v: &Vec<char>) -> (r: Option<u32>)
    ensures
        r == spec_valid_rev(v@),
{
    let n = v.len();
    if n == 0 || v[0] == '0' {
        return None;
    }
    let mut i: usize = 0;
    let mut acc: u64 = 0;
    while i < n
        invariant
            n == v@.len(),
            i <= n,
            n > 0,
            v@[0] != '0',
            all_digits(v@.take(i as int)),
            acc == digits_value(v@.take(i as int)),
            acc <= u32::MAX,
        decreases n - i,
    {
        let c = v[i];
        if !is_digit_exec(c) {
            proof {
                assert(!is_digit(v@[i as int]));
            }
            return None;
        }
        let d = (c as u32 - 48) as u64;
        proof {
            assert(v@.take(i as int + 1).drop_last() =~= v@.take(i as int));
            assert(v@.take(i as int + 1).last() == c);
        }
        let next = acc * 10 + d;
        if next > 0xFFFF_FFFF {
            proof {
                lemma_digits_value_grows(v@, i as int + 1);
            }
            return None;
        }
        acc = next;
        i += 1;
        proof {
            assert forall|j: int| 0 <= j < i implies #[trigger] is_digit(v@.take(i as int)[j]) by {
                if j < i - 1 {
                    assert(v@.take(i as int)[j] == v@.take(i as int - 1)[j]);
                }
            }
        }
    }
    proof {
        assert(v@.take(n as int) == v@);
    }
    Some(acc as u32)
}

/// Once a prefix of digits is worth more than `u32::MAX`, so is the whole string.
proof fn lemma_digits_value_grows(s: Seq<char>, k: int)
    requires
        0 <= k <= s.len(),
    ensures
        all_digits(s) ==> digits_value(s) >= digits_value(s.take(k)),
    decreases s.len() - k,
{
    if k < s.len() {
        lemma_digits_value_grows(s, k + 1);
        assert(s.take(k + 1).drop_last() =~= s.take(k));
    } else {
        assert(s.take(k) =~= s);
    }
}

/// `str::split('~')` over characters.
fn split_tilde_chars(v: &Vec<char>) -> (r: Vec<Vec<char>>)
    ensures
        r@.len() == split_tilde(v@).len(),
        forall|i: int| 0 <= i < r@.len() ==> #[trigger] r@[i]@ == split_tilde(v@)[i],
{
    let mut done: Vec<Vec<char>> = Vec::new();
    let mut cur: Vec<char> = Vec::new();
    let mut i: usize = 0;
    while i < v.len()
        invariant
            i <= v@.len(),
            done@.len() + 1 == split_tilde(v@.take(i as int)).len(),
            forall|j: int| 0 <= j < done@.len() ==> #[trigger] done@[j]@ == split_tilde(
                v@.take(i as int),
            )[j],
            cur@ == split_tilde(v@.take(i as int)).last(),
        decreases v@.len() - i,
    {
        let c = v[i];
        proof {
            assert(v@.take(i as int + 1).drop_last() =~= v@.take(i as int));
        }
        if c == '~' {
            let piece = cur;
            done.push(piece);
            cur = Vec::new();
        } else {
            cur.push(c);
        }
        i += 1;
    }
    proof {
        assert(v@.take(v@.len() as int) == v@);
    }
    done.push(cur);
    done
}

impl Id {
    /// Parse `type~slug~rev`.
    pub fn parse(s: &str) -> (r: Result<Id, IdError>)
        ensures
            r matches Ok(id) ==> spec_parse(s@) == Ok::<_, ()>((id.ty@, id.slug@, id.rev)),
            r matches Err(e) ==> spec_parse(s@) is Err && error_kind(e) == spec_parse_error(s@)
                && error_text(e) == s@,
            spec_parse(s@) is Ok ==> r is Ok,
    {
        let v = chars_of(s);
        let parts = split_tilde_chars(&v);
        if parts.len() != 3 {
            return Err(IdError::Shape(copy_str(s)));
        }
        if !valid_type_chars(&parts[0]) {
            return Err(IdError::Type(copy_str(s)));
        }
        if !valid_slug_chars(&parts[1]) {
            return Err(IdError::Slug(copy_str(s)));
        }
        match valid_rev_chars(&parts[2]) {
            None => Err(IdError::Rev(copy_str(s))),
            Some(rev) => Ok(Id { ty: string_of(parts[0].as_slice()), slug: string_of(parts[1].as_slice()), rev }),
        }
    }

    /// Build an id from its parts, checking the grammar.
    pub fn new(ty: &str, slug: &str, rev: u32) -> (r: Result<Id, IdError>)
        ensures
            r is Ok <==> (spec_valid_type(ty@) && spec_valid_slug(slug@) && rev >= 1),
            r matches Ok(id) ==> id.ty@ == ty@ && id.slug@ == slug@ && id.rev == rev,
            r matches Err(e) ==> error_text(e) == render(ty@, slug@, rev) && error_kind(e)
                == spec_parse_error(render(ty@, slug@, rev)),
    {
        let mut s = copy_str(ty);
        push_char(&mut s, '~');
        push_str(&mut s, slug);
        push_char(&mut s, '~');
        let d = decimal_string(rev);
        push_str(&mut s, d.as_str());
        proof {
            assert(s@ =~= render(ty@, slug@, rev));
            lemma_parse_render(ty@, slug@, rev);
        }
        Id::parse(s.as_str())
    }

    pub fn key(&self) -> (k: Key)
        ensures
            k.ty@ == self.ty@,
            k.slug@ == self.slug@,
    {
        Key { ty: self.ty.clone(), slug: self.slug.clone() }
    }

    pub fn with_rev(&self, rev: u32) -> (r: Id)
        ensures
            r.ty@ == self.ty@,
            r.slug@ == self.slug@,
            r.rev == rev,
    {
        Id { ty: self.ty.clone(), slug: self.slug.clone(), rev }
    }

    /// `type~slug~rev`.
    pub fn to_string(&self) -> (r: String)
        ensures
            r@ == self.text(),
    {
        let mut s = self.ty.clone();
        push_char(&mut s, '~');
        push_str(&mut s, self.slug.as_str());
        push_char(&mut s, '~');
        let d = decimal_string(self.rev);
        push_str(&mut s, d.as_str());
        proof {
            assert(s@ =~= self.text());
        }
        s
    }

    /// Field-wise copy.
    pub fn dup(&self) -> (r: Id)
        ensures
            r == *self,
    {
        Id { ty: self.ty.clone(), slug: self.slug.clone(), rev: self.rev }
    }

    /// Same type, slug and rev.
    pub fn same(&self, other: &Id) -> (b: bool)
        ensures
            b == (self.ty@ == other.ty@ && self.slug@ == other.slug@ && self.rev == other.rev),
    {
        self.rev == other.rev && self.ty == other.ty && self.slug == other.slug
    }
}

impl Key {
    /// `type~slug`.
    pub fn to_string(&self) -> (r: String)
        ensures
            r@ == self.ty@ + seq!['~'] + self.slug@,
    {
        let mut s = self.ty.clone();
        push_char(&mut s, '~');
        push_str(&mut s, self.slug.as_str());
        s
    }
}

impl core::str::FromStr for Id {
    type Err = IdError;

    fn from_str(s: &str) -> (r: Result<Id, IdError>)
        ensures
            r matches Ok(id) ==> spec_parse(s@) == Ok::<_, ()>((id.ty@, id.slug@, id.rev)),
            r matches Err(e) ==> spec_parse(s@) is Err && error_kind(e) == spec_parse_error(s@)
                && error_text(e) == s@,
            spec_parse(s@) is Ok ==> r is Ok,
    {
        Id::parse(s)
    }
}

// ---------- laws ----------

proof fn lemma_split_no_tilde(a: Seq<char>)
    requires
        forall|i: int| 0 <= i < a.len() ==> a[i] != '~',
    ensures
        split_tilde(a) == seq![a],
    decreases a.len(),
{
    if a.len() > 0 {
        lemma_split_no_tilde(a.drop_last());
        assert(a.drop_last().push(a.last()) =~= a);
        assert(split_tilde(a) =~= seq![a]);
    } else {
        assert(a =~= Seq::<char>::empty());
    }
}

proof fn lemma_split_append(s: Seq<char>, t: Seq<char>)
    requires
        forall|i: int| 0 <= i < t.len() ==> t[i] != '~',
    ensures
        split_tilde(s + seq!['~'] + t) == split_tilde(s).push(t),
    decreases t.len(),
{
    if t.len() == 0 {
        assert(t =~= Seq::<char>::empty());
        assert(s + seq!['~'] + t =~= s.push('~'));
        assert((s.push('~')).drop_last() =~= s);
        assert(split_tilde(s).push(t) =~= split_tilde(s).push(Seq::<char>::empty()));
    } else {
        let t2 = t.drop_last();
        lemma_split_append(s, t2);
        assert((s + seq!['~'] + t).drop_last() =~= s + seq!['~'] + t2);
        assert(t2.push(t.last()) =~= t);
        assert(split_tilde(s + seq!['~'] + t) =~= split_tilde(s).push(t));
    }
}

pub proof fn lemma_no_tilde_type(s: Seq<char>)
    requires
        spec_valid_type(s),
    ensures
        forall|i: int| 0 <= i < s.len() ==> s[i] != '~',
{
    assert forall|i: int| 0 <= i < s.len() implies s[i] != '~' by {
        assert(type_char(s[i]));
    }
}

pub proof fn lemma_no_tilde_slug(s: Seq<char>)
    requires
        spec_valid_slug(s),
    ensures
        forall|i: int| 0 <= i < s.len() ==> s[i] != '~',
{
    assert forall|i: int| 0 <= i < s.len() implies s[i] != '~' by {
        assert(slug_char(s[i]));
    }
}

/// Parsing a rendered id gives back its parts exactly when the parts satisfy the grammar.
pub proof fn lemma_parse_render(ty: Seq<char>, slug: Seq<char>, rev: u32)
    ensures
        (spec_parse(render(ty, slug, rev)) is Ok) <==> (spec_valid_type(ty) && spec_valid_slug(
            slug,
        ) && rev >= 1),
        spec_parse(render(ty, slug, rev)) is Ok ==> spec_parse(render(ty, slug, rev)) == Ok::<
            _,
            (),
        >((ty, slug, rev)),
{
    lemma_decimal(rev as nat);
    let d = decimal(rev as nat);
    assert forall|i: int| 0 <= i < d.len() implies d[i] != '~' by {
        assert(is_digit(d[i]));
    }
    if spec_valid_type(ty) && spec_valid_slug(slug) {
        lemma_no_tilde_type(ty);
        lemma_no_tilde_slug(slug);
        lemma_split_no_tilde(ty);
        lemma_split_append(ty, slug);
        lemma_split_append(ty + seq!['~'] + slug, d);
        let parts = split_tilde(render(ty, slug, rev));
        assert(parts =~= seq![ty, slug, d]);
        if rev >= 1 {
            assert(spec_valid_rev(d) == Some(rev));
        } else {
            assert(d[0] == '0');
        }
    } else {
        // either the shape breaks or the first invalid part is reported
        let r = render(ty, slug, rev);
        let parts = split_tilde(r);
        if parts.len() == 3 {
            lemma_split_prefix(ty, slug, d);
        }
    }
}

/// When `ty~slug~d` splits into exactly three pieces and `d` has no tilde, the first two
/// pieces are `ty` and `slug`.
proof fn lemma_split_prefix(ty: Seq<char>, slug: Seq<char>, d: Seq<char>)
    requires
        forall|i: int| 0 <= i < d.len() ==> d[i] != '~',
        split_tilde(ty + seq!['~'] + slug + seq!['~'] + d).len() == 3,
    ensures
        split_tilde(ty + seq!['~'] + slug + seq!['~'] + d)[0] == ty,
        split_tilde(ty + seq!['~'] + slug + seq!['~'] + d)[1] == slug,
{
    lemma_split_append(ty + seq!['~'] + slug, d);
    lemma_split_len(ty, slug);
    lemma_split_len_ge1(ty);
    lemma_split_len_ge1(slug);
    assert(split_tilde(ty + seq!['~'] + slug).len() == 2);
    assert(split_tilde(ty).len() == 1);
    assert(split_tilde(slug).len() == 1);
    lemma_split_single(ty);
    lemma_split_single(slug);
    lemma_split_append(ty, slug);
    assert(split_tilde(ty + seq!['~'] + slug) =~= seq![ty, slug]);
}

proof fn lemma_split_len_ge1(s: Seq<char>)
    ensures
        split_tilde(s).len() >= 1,
    decreases s.len(),
{
    if s.len() > 0 {
        lemma_split_len_ge1(s.drop_last());
    }
}

/// Splitting `a~b` yields the pieces of `a`, then the pieces of `b`, the last of `a` and the
/// first of `b` kept apart by the tilde.
proof fn lemma_split_len(a: Seq<char>, b: Seq<char>)
    ensures
        split_tilde(a + seq!['~'] + b).len() == split_tilde(a).len() + split_tilde(b).len(),
    decreases b.len(),
{
    lemma_split_len_ge1(a);
    if b.len() == 0 {
        assert(a + seq!['~'] + b =~= a.push('~'));
        assert(a.push('~').drop_last() =~= a);
    } else {
        lemma_split_len(a, b.drop_last());
        assert((a + seq!['~'] + b).drop_last() =~= a + seq!['~'] + b.drop_last());
        assert((a + seq!['~'] + b).last() == b.last());
        lemma_split_len_ge1(b.drop_last());
    }
}

/// A single piece means no tilde.
proof fn lemma_split_single(a: Seq<char>)
    requires
        split_tilde(a).len() == 1,
    ensures
        forall|i: int| 0 <= i < a.len() ==> a[i] != '~',
        split_tilde(a) == seq![a],
    decreases a.len(),
{
    if a.len() > 0 {
        lemma_split_len_ge1(a.drop_last());
        assert(a.last() != '~');
        lemma_split_single(a.drop_last());
        assert forall|i: int| 0 <= i < a.len() implies a[i] != '~' by {
            if i < a.len() - 1 {
                assert(a[i] == a.drop_last()[i]);
            }
        }
        lemma_split_no_tilde(a);
    } else {
        assert(a =~= Seq::<char>::empty());
        assert(split_tilde(a) =~= seq![a]);
    }
}

/// Rendering then parsing a well-formed id gives the same id back, and parsing any text
/// that parses, then rendering, gives the same text back.
pub proof fn law_id_roundtrip(id: Id, s: Seq<char>)
    ensures
        id.well_formed() ==> spec_parse(id.text()) == Ok::<_, ()>((id.ty@, id.slug@, id.rev)),
        spec_parse(s) matches Ok((ty, slug, rev)) ==> render(ty, slug, rev) == s,
{
    lemma_parse_render(id.ty@, id.slug@, id.rev);
    if let Ok((ty, slug, rev)) = spec_parse(s) {
        lemma_render_parse(s);
    }
}

proof fn lemma_render_parse(s: Seq<char>)
    requires
        spec_parse(s) is Ok,
    ensures
        spec_parse(s) matches Ok((ty, slug, rev)) ==> render(ty, slug, rev) == s,
{
    let parts = split_tilde(s);
    lemma_join_split(s);
    lemma_digits_decimal(parts[2]);
    assert(parts.len() == 3);
    let p2 = parts.drop_last();
    let p1 = p2.drop_last();
    assert(p1.len() == 1 && p1[0] == parts[0]);
    assert(join_tilde(p1) == parts[0]);
    assert(p2.last() == parts[1]);
    assert(join_tilde(p2) == join_tilde(p1) + seq!['~'] + parts[1]);
    assert(join_tilde(parts) == join_tilde(p2) + seq!['~'] + parts[2]);
}

/// The pieces joined back with tildes.
pub open spec fn join_tilde(parts: Seq<Seq<char>>) -> Seq<char>
    decreases parts.len(),
{
    if parts.len() <= 1 {
        if parts.len() == 1 {
            parts[0]
        } else {
            Seq::<char>::empty()
        }
    } else {
        join_tilde(parts.drop_last()) + seq!['~'] + parts.last()
    }
}

proof fn lemma_join_split(s: Seq<char>)
    ensures
        join_tilde(split_tilde(s)) == s,
    decreases s.len(),
{
    if s.len() > 0 {
        let t = s.drop_last();
        lemma_join_split(t);
        lemma_split_len_ge1(t);
        let rest = split_tilde(t);
        assert(t.push(s.last()) =~= s);
        if s.last() == '~' {
            assert(split_tilde(s).drop_last() =~= rest);
            assert(join_tilde(split_tilde(s)) =~= s);
        } else {
            let parts = split_tilde(s);
            assert(parts.drop_last() =~= rest.drop_last());
            if rest.len() == 1 {
                assert(join_tilde(parts) =~= s);
            } else {
                assert(join_tilde(rest) == join_tilde(rest.drop_last()) + seq!['~'] + rest.last());
                assert(join_tilde(parts) =~= s);
            }
        }
    } else {
        assert(split_tilde(s) =~= seq![Seq::<char>::empty()]);
        assert(s =~= Seq::<char>::empty());
    }
}

proof fn lemma_digits_positive(p: Seq<char>)
    requires
        p.len() > 0,
        all_digits(p),
        p[0] != '0',
    ensures
        digits_value(p) >= 1,
    decreases p.len(),
{
    if p.len() > 1 {
        let q = p.drop_last();
        assert(q[0] == p[0]);
        assert(all_digits(q)) by {
            assert forall|i: int| 0 <= i < q.len() implies #[trigger] is_digit(q[i]) by {
                assert(q[i] == p[i]);
            }
        }
        lemma_digits_positive(q);
    } else {
        assert(is_digit(p[0]));
        assert(p.drop_last() =~= Seq::<char>::empty());
    }
}

/// A digit string without leading zero is the decimal rendering of its value.
proof fn lemma_digits_decimal(p: Seq<char>)
    requires
        p.len() > 0,
        all_digits(p),
        p[0] != '0',
    ensures
        decimal(digits_value(p)) == p,
    decreases p.len(),
{
    let last = p.last();
    assert(is_digit(last));
    let dv: nat = ((last as u32) - 48) as nat;
    assert(dv < 10);
    lemma_digit_char(dv);
    assert(digit_char(dv) == last) by {
        vstd::utf8::char_u32_cast(last, last as u32);
        assert((digit_char(dv) as u32) == (last as u32));
        vstd::utf8::char_u32_cast(digit_char(dv), digit_char(dv) as u32);
    }
    if p.len() == 1 {
        assert(p.drop_last() =~= Seq::<char>::empty());
        assert(digits_value(p.drop_last()) == 0);
        assert(digits_value(p) == digits_value(p.drop_last()) * 10 + dv);
        assert(decimal(dv) =~= p);
    } else {
        let q = p.drop_last();
        assert(q[0] == p[0]);
        assert(all_digits(q)) by {
            assert forall|i: int| 0 <= i < q.len() implies #[trigger] is_digit(q[i]) by {
                assert(q[i] == p[i]);
            }
        }
        lemma_digits_positive(q);
        lemma_digits_decimal(q);
        let v = digits_value(p);
        let vq = digits_value(q);
        assert(v == vq * 10 + dv);
        assert(v / 10 == vq && v % 10 == dv) by (nonlinear_arith)
            requires
                v == vq * 10 + dv,
                dv < 10,
        ;
        assert(v >= 10);
        assert(q.push(last) =~= p);
    }
}


// ---------- slugs from free text ----------

/// Words that carry no meaning in a slug.
pub open spec fn is_stopword(w: Seq<char>) -> bool {
    w == "the"@
        || w == "a"@
        || w == "an"@
        || w == "and"@
        || w == "or"@
        || w == "of"@
        || w == "to"@
        || w == "in"@
        || w == "on"@
        || w == "for"@
        || w == "with"@
        || w == "by"@
        || w == "at"@
        || w == "as"@
        || w == "is"@
        || w == "are"@
        || w == "be"@
        || w == "been"@
        || w == "shall"@
        || w == "should"@
        || w == "must"@
        || w == "will"@
        || w == "may"@
        || w == "can"@
        || w == "system"@
        || w == "tool"@
        || w == "it"@
        || w == "its"@
        || w == "this"@
        || w == "that"@
        || w == "these"@
        || w == "those"@
        || w == "when"@
        || w == "while"@
        || w == "if"@
        || w == "then"@
        || w == "where"@
        || w == "which"@
        || w == "who"@
        || w == "from"@
        || w == "into"@
        || w == "than"@
        || w == "not"@
        || w == "no"@
        || w == "any"@
        || w == "all"@
        || w == "each"@
        || w == "every"@
        || w == "per"@
        || w == "via"@
        || w == "so"@
        || w == "such"@
        || w == "only"@
        || w == "also"@
        || w == "both"@
        || w == "either"@
        || w == "neither"@
        || w == "we"@
        || w == "user"@
        || w == "users"@
}

fn stopword(w: &Vec<char>) -> (b: bool)
    ensures
        b == is_stopword(w@),
{
    eq_lit(w, "the")
        || eq_lit(w, "a")
        || eq_lit(w, "an")
        || eq_lit(w, "and")
        || eq_lit(w, "or")
        || eq_lit(w, "of")
        || eq_lit(w, "to")
        || eq_lit(w, "in")
        || eq_lit(w, "on")
        || eq_lit(w, "for")
        || eq_lit(w, "with")
        || eq_lit(w, "by")
        || eq_lit(w, "at")
        || eq_lit(w, "as")
        || eq_lit(w, "is")
        || eq_lit(w, "are")
        || eq_lit(w, "be")
        || eq_lit(w, "been")
        || eq_lit(w, "shall")
        || eq_lit(w, "should")
        || eq_lit(w, "must")
        || eq_lit(w, "will")
        || eq_lit(w, "may")
        || eq_lit(w, "can")
        || eq_lit(w, "system")
        || eq_lit(w, "tool")
        || eq_lit(w, "it")
        || eq_lit(w, "its")
        || eq_lit(w, "this")
        || eq_lit(w, "that")
        || eq_lit(w, "these")
        || eq_lit(w, "those")
        || eq_lit(w, "when")
        || eq_lit(w, "while")
        || eq_lit(w, "if")
        || eq_lit(w, "then")
        || eq_lit(w, "where")
        || eq_lit(w, "which")
        || eq_lit(w, "who")
        || eq_lit(w, "from")
        || eq_lit(w, "into")
        || eq_lit(w, "than")
        || eq_lit(w, "not")
        || eq_lit(w, "no")
        || eq_lit(w, "any")
        || eq_lit(w, "all")
        || eq_lit(w, "each")
        || eq_lit(w, "every")
        || eq_lit(w, "per")
        || eq_lit(w, "via")
        || eq_lit(w, "so")
        || eq_lit(w, "such")
        || eq_lit(w, "only")
        || eq_lit(w, "also")
        || eq_lit(w, "both")
        || eq_lit(w, "either")
        || eq_lit(w, "neither")
        || eq_lit(w, "we")
        || eq_lit(w, "user")
        || eq_lit(w, "users")
}

fn eq_lit(w: &Vec<char>, lit: &str) -> (b: bool)
    ensures
        b == (w@ == lit@),
{
    let l = chars_of(lit);
    seq_eq(w, &l)
}

/// Scanning state after a prefix of the text: finished words, and the word being read.
pub open spec fn scan_words(s: Seq<char>) -> (Seq<Seq<char>>, Seq<char>)
    decreases s.len(),
{
    if s.len() == 0 {
        (Seq::<Seq<char>>::empty(), Seq::<char>::empty())
    } else {
        let (ws, cur) = scan_words(s.drop_last());
        let c = s.last();
        if is_ascii_alnum(c) {
            (ws, cur.push(lower_of(c)))
        } else if cur.len() > 0 {
            (ws.push(cur), Seq::<char>::empty())
        } else {
            (ws, cur)
        }
    }
}

/// The maximal runs of ASCII letters and digits in `s`, lowercased, in order.
pub open spec fn words_of(s: Seq<char>) -> Seq<Seq<char>> {
    let (ws, cur) = scan_words(s);
    if cur.len() > 0 {
        ws.push(cur)
    } else {
        ws
    }
}

/// `out` with `w` appended, hyphen-separated.
pub open spec fn join_word(out: Seq<char>, w: Seq<char>) -> Seq<char> {
    if out.len() == 0 {
        w
    } else {
        out + seq!['-'] + w
    }
}

/// Greedy packing of the first `k` words into at most `max` characters: words are taken in
/// order until the next one does not fit (then packing stops for good).
pub open spec fn pack(ws: Seq<Seq<char>>, max: nat, k: nat) -> (Seq<char>, bool)
    decreases k,
{
    if k == 0 || k > ws.len() {
        (Seq::<char>::empty(), false)
    } else {
        let (out, stopped) = pack(ws, max, (k - 1) as nat);
        let w = ws[k - 1];
        if stopped || join_word(out, w).len() > max {
            (out, true)
        } else {
            (join_word(out, w), false)
        }
    }
}

pub open spec fn pick(ws: Seq<Seq<char>>, max: nat) -> Seq<char> {
    pack(ws, max, ws.len()).0
}

/// What `slugify(text, max_len)` returns.
pub open spec fn spec_slugify(text: Seq<char>, max: nat) -> Seq<char> {
    let words = words_of(text);
    let meaningful = meaningful_words(words);
    let a = pick(meaningful, max);
    let b = if a.len() == 0 {
        pick(words, max)
    } else {
        a
    };
    let c = if b.len() == 0 && words.len() > 0 {
        words[0].take(if max < words[0].len() {
            max as int
        } else {
            words[0].len() as int
        })
    } else {
        b
    };
    if c.len() == 0 {
        fallback_slug(max)
    } else {
        c
    }
}

/// The slug of a text with no letters or digits: `item`, cut to `max` characters.
pub open spec fn fallback_slug(max: nat) -> Seq<char> {
    if max < 4 {
        "item"@.take(max as int)
    } else {
        "item"@
    }
}

/// The words that are not stopwords, in order.
pub open spec fn meaningful_words(ws: Seq<Seq<char>>) -> Seq<Seq<char>>
    decreases ws.len(),
{
    if ws.len() == 0 {
        ws
    } else if is_stopword(ws.last()) {
        meaningful_words(ws.drop_last())
    } else {
        meaningful_words(ws.drop_last()).push(ws.last())
    }
}

/// A non-empty run of lowercase ASCII letters and digits.
pub open spec fn word_ok(w: Seq<char>) -> bool {
    w.len() > 0 && forall|i: int| 0 <= i < w.len() ==> #[trigger] type_char(w[i])
}

pub open spec fn all_words_ok(ws: Seq<Seq<char>>) -> bool {
    forall|i: int| 0 <= i < ws.len() ==> #[trigger] word_ok(ws[i])
}

proof fn lemma_scan_ok(s: Seq<char>)
    ensures
        all_words_ok(scan_words(s).0),
        forall|i: int| 0 <= i < scan_words(s).1.len() ==> #[trigger] type_char(scan_words(s).1[i]),
    decreases s.len(),
{
    if s.len() > 0 {
        lemma_scan_ok(s.drop_last());
        let (ws, cur) = scan_words(s.drop_last());
        let c = s.last();
        if is_ascii_alnum(c) {
            let cur2 = cur.push(lower_of(c));
            assert forall|i: int| 0 <= i < cur2.len() implies #[trigger] type_char(cur2[i]) by {
                if i < cur.len() {
                    assert(cur2[i] == cur[i]);
                } else {
                    lemma_lower_of_alnum(c);
                }
            }
        } else if cur.len() > 0 {
            let ws2 = ws.push(cur);
            assert forall|i: int| 0 <= i < ws2.len() implies #[trigger] word_ok(ws2[i]) by {
                if i < ws.len() {
                    assert(ws2[i] == ws[i]);
                }
            }
        }
    }
}

proof fn lemma_lower_of_alnum(c: char)
    requires
        is_ascii_alnum(c),
    ensures
        type_char(lower_of(c)),
{
    if is_upper_ascii(c) {
        assert(((c as u32) + 32) as char as u32 == (c as u32) + 32);
    }
}

pub proof fn lemma_words_ok(s: Seq<char>)
    ensures
        all_words_ok(words_of(s)),
{
    lemma_scan_ok(s);
    let (ws, cur) = scan_words(s);
    if cur.len() > 0 {
        let ws2 = ws.push(cur);
        assert forall|i: int| 0 <= i < ws2.len() implies #[trigger] word_ok(ws2[i]) by {
            if i < ws.len() {
                assert(ws2[i] == ws[i]);
            }
        }
    }
}

proof fn lemma_word_is_slug(w: Seq<char>)
    requires
        word_ok(w),
    ensures
        spec_valid_slug(w),
{
    assert(type_char(w[0]));
    assert(type_char(w[w.len() - 1]));
    assert forall|i: int| 0 <= i < w.len() implies #[trigger] slug_char(w[i]) by {
        assert(type_char(w[i]));
    }
    assert forall|i: int| 0 <= i < w.len() - 1 implies !(#[trigger] w[i] == '-' && w[i + 1]
        == '-') by {
        assert(type_char(w[i]));
    }
}

proof fn lemma_join_ok(out: Seq<char>, w: Seq<char>)
    requires
        out.len() == 0 || spec_valid_slug(out),
        word_ok(w),
    ensures
        spec_valid_slug(join_word(out, w)),
{
    lemma_word_is_slug(w);
    if out.len() > 0 {
        let j = out + seq!['-'] + w;
        let n = out.len();
        assert(j[0] == out[0]);
        assert(j.last() == w.last());
        assert forall|i: int| 0 <= i < j.len() implies #[trigger] slug_char(j[i]) by {
            if i < n {
                assert(j[i] == out[i]);
            } else if i > n {
                assert(j[i] == w[i - n - 1]);
            }
        }
        assert forall|i: int| 0 <= i < j.len() - 1 implies !(#[trigger] j[i] == '-' && j[i + 1]
            == '-') by {
            if i < n - 1 {
                assert(j[i] == out[i] && j[i + 1] == out[i + 1]);
            } else if i == n - 1 {
                assert(j[i] == out.last());
            } else if i == n {
                assert(j[i + 1] == w[0]);
                assert(type_char(w[0]));
            } else {
                assert(j[i] == w[i - n - 1] && j[i + 1] == w[i - n]);
                assert(type_char(w[i - n - 1]));
            }
        }
    }
}

proof fn lemma_pack_ok(ws: Seq<Seq<char>>, max: nat, k: nat)
    requires
        all_words_ok(ws),
    ensures
        pack(ws, max, k).0.len() == 0 || spec_valid_slug(pack(ws, max, k).0),
        pack(ws, max, k).0.len() <= max,
    decreases k,
{
    if k > 0 && k <= ws.len() {
        lemma_pack_ok(ws, max, (k - 1) as nat);
        let (out, stopped) = pack(ws, max, (k - 1) as nat);
        assert(word_ok(ws[k - 1]));
        if !stopped && join_word(out, ws[k - 1]).len() <= max {
            lemma_join_ok(out, ws[k - 1]);
        }
    }
}

proof fn lemma_filter_ok(ws: Seq<Seq<char>>)
    requires
        all_words_ok(ws),
    ensures
        all_words_ok(meaningful_words(ws)),
    decreases ws.len(),
{
    if ws.len() > 0 {
        let d = ws.drop_last();
        assert(all_words_ok(d)) by {
            assert forall|i: int| 0 <= i < d.len() implies #[trigger] word_ok(d[i]) by {
                assert(d[i] == ws[i]);
            }
        }
        lemma_filter_ok(d);
        assert(word_ok(ws[ws.len() - 1]));
        let f = meaningful_words(ws);
        let g = meaningful_words(d);
        if !is_stopword(ws.last()) {
            assert forall|i: int| 0 <= i < f.len() implies #[trigger] word_ok(f[i]) by {
                if i < g.len() {
                    assert(f[i] == g[i]);
                }
            }
        }
    }
}

// ---------- slugifying a slug ----------

/// The words joined with hyphens.
pub open spec fn joined(ws: Seq<Seq<char>>) -> Seq<char>
    decreases ws.len(),
{
    if ws.len() == 0 {
        Seq::empty()
    } else {
        join_word(joined(ws.drop_last()), ws.last())
    }
}

/// How many words `pack(ws, max, k)` took.
pub open spec fn pack_count(ws: Seq<Seq<char>>, max: nat, k: nat) -> nat
    decreases k,
{
    if k == 0 || k > ws.len() {
        0
    } else {
        let (out, stopped) = pack(ws, max, (k - 1) as nat);
        if stopped || join_word(out, ws[k - 1]).len() > max {
            pack_count(ws, max, (k - 1) as nat)
        } else {
            k
        }
    }
}

proof fn lemma_pack_shape(ws: Seq<Seq<char>>, max: nat, k: nat)
    requires
        k <= ws.len(),
    ensures
        pack(ws, max, k).0 == joined(ws.take(pack_count(ws, max, k) as int)),
        pack_count(ws, max, k) <= k,
        !pack(ws, max, k).1 ==> pack_count(ws, max, k) == k,
    decreases k,
{
    if k == 0 {
        assert(ws.take(0) =~= Seq::<Seq<char>>::empty());
    } else {
        lemma_pack_shape(ws, max, (k - 1) as nat);
        let (out, stopped) = pack(ws, max, (k - 1) as nat);
        if !(stopped || join_word(out, ws[k - 1]).len() > max) {
            assert(ws.take(k as int).drop_last() =~= ws.take(k - 1));
            assert(ws.take(k as int).last() == ws[k - 1]);
        }
    }
}

proof fn lemma_pack_count_pos(ws: Seq<Seq<char>>, max: nat, k: nat)
    requires
        1 <= k <= ws.len(),
        ws[0].len() <= max,
    ensures
        pack_count(ws, max, k) >= 1,
    decreases k,
{
    if k > 1 {
        lemma_pack_count_pos(ws, max, (k - 1) as nat);
    }
}

proof fn lemma_joined_nonempty(ws: Seq<Seq<char>>)
    requires
        ws.len() > 0,
        ws.last().len() > 0,
    ensures
        joined(ws).len() > 0,
{
}

proof fn lemma_joined_prefix_le(ws: Seq<Seq<char>>, k: int)
    requires
        0 <= k <= ws.len(),
    ensures
        joined(ws.take(k)).len() <= joined(ws).len(),
    decreases ws.len() - k,
{
    if k == ws.len() {
        assert(ws.take(k) =~= ws);
    } else {
        lemma_joined_prefix_le(ws, k + 1);
        assert(ws.take(k + 1).drop_last() =~= ws.take(k));
    }
}

proof fn lemma_word_le_joined(ws: Seq<Seq<char>>, j: int)
    requires
        0 <= j < ws.len(),
    ensures
        ws[j].len() <= joined(ws).len(),
{
    lemma_joined_prefix_le(ws, j + 1);
    assert(ws.take(j + 1).drop_last() =~= ws.take(j));
    assert(ws.take(j + 1).last() == ws[j]);
}

/// Packing words whose hyphen-join fits takes them all.
proof fn lemma_pick_fits(ws: Seq<Seq<char>>, max: nat, k: nat)
    requires
        k <= ws.len(),
        joined(ws).len() <= max,
    ensures
        pack(ws, max, k) == (joined(ws.take(k as int)), false),
    decreases k,
{
    if k == 0 {
        assert(ws.take(0) =~= Seq::<Seq<char>>::empty());
    } else {
        lemma_pick_fits(ws, max, (k - 1) as nat);
        assert(ws.take(k as int).drop_last() =~= ws.take(k - 1));
        assert(ws.take(k as int).last() == ws[k - 1]);
        lemma_joined_prefix_le(ws, k as int);
    }
}

proof fn lemma_pick_all(ws: Seq<Seq<char>>, max: nat)
    requires
        joined(ws).len() <= max,
    ensures
        pick(ws, max) == joined(ws),
{
    lemma_pick_fits(ws, max, ws.len());
    assert(ws.take(ws.len() as int) =~= ws);
}

/// What packing picks: the hyphen-join of its first `p` words, within `max`; some when the
/// first word fits.
proof fn lemma_pick_prefix(ws: Seq<Seq<char>>, max: nat)
    requires
        all_words_ok(ws),
    ensures
        ({
            let p = pack_count(ws, max, ws.len());
            &&& p <= ws.len()
            &&& pick(ws, max) == joined(ws.take(p as int))
            &&& joined(ws.take(p as int)).len() <= max
            &&& (pick(ws, max).len() == 0 <==> (ws.len() == 0 || ws[0].len() > max))
            &&& pick(ws, max).len() > 0 ==> p >= 1
        }),
{
    let p = pack_count(ws, max, ws.len());
    lemma_pack_shape(ws, max, ws.len());
    lemma_pack_ok(ws, max, ws.len());
    if p >= 1 {
        let t = ws.take(p as int);
        assert(t.last() == ws[p - 1]);
        assert(word_ok(ws[p - 1]));
        lemma_joined_nonempty(t);
        assert(word_ok(ws[0]));
        lemma_word_le_joined(t, 0);
        assert(t[0] == ws[0]);
    } else {
        assert(ws.take(0) =~= Seq::<Seq<char>>::empty());
        if ws.len() > 0 && ws[0].len() <= max {
            lemma_pack_count_pos(ws, max, ws.len());
        }
    }
}

proof fn lemma_scan_append(s: Seq<char>, w: Seq<char>)
    requires
        forall|i: int| 0 <= i < w.len() ==> #[trigger] type_char(w[i]),
    ensures
        scan_words(s + w) == (scan_words(s).0, scan_words(s).1 + w),
    decreases w.len(),
{
    if w.len() == 0 {
        assert(s + w =~= s);
        assert(scan_words(s).1 + w =~= scan_words(s).1);
    } else {
        let d = w.drop_last();
        assert forall|i: int| 0 <= i < d.len() implies #[trigger] type_char(d[i]) by {
            assert(d[i] == w[i]);
        }
        lemma_scan_append(s, d);
        assert((s + w).drop_last() =~= s + d);
        let c = w[w.len() - 1];
        assert(type_char(c));
        assert((s + w).last() == c);
        assert(lower_of(c) == c);
        assert((scan_words(s).1 + d).push(c) =~= scan_words(s).1 + w);
    }
}

proof fn lemma_scan_joined(ws: Seq<Seq<char>>)
    requires
        ws.len() > 0,
        all_words_ok(ws),
    ensures
        scan_words(joined(ws)) == (ws.drop_last(), ws.last()),
    decreases ws.len(),
{
    let w = ws.last();
    assert(word_ok(ws[ws.len() - 1]));
    let d = ws.drop_last();
    if ws.len() == 1 {
        assert(d =~= Seq::<Seq<char>>::empty());
        assert(joined(ws) == w);
        lemma_scan_append(Seq::<char>::empty(), w);
        assert(Seq::<char>::empty() + w =~= w);
    } else {
        assert(all_words_ok(d)) by {
            assert forall|i: int| 0 <= i < d.len() implies #[trigger] word_ok(d[i]) by {
                assert(d[i] == ws[i]);
            }
        }
        lemma_scan_joined(d);
        assert(word_ok(d[d.len() - 1]));
        lemma_joined_nonempty(d);
        let h = joined(d) + seq!['-'];
        assert(h.drop_last() =~= joined(d));
        assert(h.last() == '-');
        assert(scan_words(h) == (d.drop_last().push(d.last()), Seq::<char>::empty()));
        assert(d.drop_last().push(d.last()) =~= d);
        lemma_scan_append(h, w);
        assert(joined(ws) =~= h + w);
        assert(Seq::<char>::empty() + w =~= w);
    }
}

/// The words of a hyphen-joined list of words are those words.
proof fn lemma_words_joined(ws: Seq<Seq<char>>)
    requires
        all_words_ok(ws),
    ensures
        words_of(joined(ws)) == ws,
{
    if ws.len() == 0 {
    } else {
        lemma_scan_joined(ws);
        assert(word_ok(ws[ws.len() - 1]));
        assert(ws.drop_last().push(ws.last()) =~= ws);
    }
}

proof fn lemma_meaningful_concat(a: Seq<Seq<char>>, b: Seq<Seq<char>>)
    ensures
        meaningful_words(a + b) == meaningful_words(a) + meaningful_words(b),
    decreases b.len(),
{
    if b.len() == 0 {
        assert(a + b =~= a);
        assert(meaningful_words(a) + meaningful_words(b) =~= meaningful_words(a));
    } else {
        lemma_meaningful_concat(a, b.drop_last());
        assert((a + b).drop_last() =~= a + b.drop_last());
        assert((a + b).last() == b.last());
        assert((meaningful_words(a) + meaningful_words(b.drop_last())).push(b.last())
            =~= meaningful_words(a) + meaningful_words(b.drop_last()).push(b.last()));
    }
}

proof fn lemma_meaningful_props(ws: Seq<Seq<char>>)
    ensures
        forall|i: int| 0 <= i < meaningful_words(ws).len() ==> !is_stopword(#[trigger] meaningful_words(ws)[i])
            && exists|j: int| 0 <= j < ws.len() && ws[j] == meaningful_words(ws)[i],
    decreases ws.len(),
{
    if ws.len() > 0 {
        let d = ws.drop_last();
        lemma_meaningful_props(d);
        let f = meaningful_words(ws);
        let g = meaningful_words(d);
        assert forall|i: int| 0 <= i < f.len() implies !is_stopword(#[trigger] f[i])
            && exists|j: int| 0 <= j < ws.len() && ws[j] == f[i] by {
            if i < g.len() {
                assert(f[i] == g[i]);
                let j = choose|j: int| 0 <= j < d.len() && d[j] == g[i];
                assert(ws[j] == d[j]);
            } else {
                assert(f[i] == ws[ws.len() - 1]);
            }
        }
    }
}

proof fn lemma_meaningful_id(ws: Seq<Seq<char>>)
    requires
        forall|i: int| 0 <= i < ws.len() ==> !is_stopword(#[trigger] ws[i]),
    ensures
        meaningful_words(ws) == ws,
    decreases ws.len(),
{
    if ws.len() > 0 {
        let d = ws.drop_last();
        assert forall|i: int| 0 <= i < d.len() implies !is_stopword(#[trigger] d[i]) by {
            assert(d[i] == ws[i]);
        }
        lemma_meaningful_id(d);
        assert(!is_stopword(ws[ws.len() - 1]));
        assert(d.push(ws.last()) =~= ws);
    }
}

/// The words a slug leaves out: articles, modal verbs, `system`, `tool`, `user(s)` and other
/// filler.
pub open spec fn listed_stopword(w: Seq<char>) -> bool {
    w == "the"@ || w == "a"@ || w == "an"@ || w == "and"@ || w == "or"@ || w == "of"@ ||
    w == "to"@ || w == "in"@ || w == "on"@ || w == "for"@ || w == "with"@ || w == "by"@ ||
    w == "at"@ || w == "as"@ || w == "is"@ || w == "are"@ || w == "be"@ || w == "been"@ ||
    w == "shall"@ || w == "should"@ || w == "must"@ || w == "will"@ || w == "may"@ || w == "can"@ ||
    w == "system"@ || w == "tool"@ || w == "it"@ || w == "its"@ || w == "this"@ || w == "that"@ ||
    w == "these"@ || w == "those"@ || w == "when"@ || w == "while"@ || w == "if"@ || w == "then"@ ||
    w == "where"@ || w == "which"@ || w == "who"@ || w == "from"@ || w == "into"@ || w == "than"@ ||
    w == "not"@ || w == "no"@ || w == "any"@ || w == "all"@ || w == "each"@ || w == "every"@ ||
    w == "per"@ || w == "via"@ || w == "so"@ || w == "such"@ || w == "only"@ || w == "also"@ ||
    w == "both"@ || w == "either"@ || w == "neither"@ || w == "we"@ || w == "user"@ || w == "users"@
}

proof fn lemma_meaningful_none(ws: Seq<Seq<char>>)
    requires
        forall|j: int| 0 <= j < ws.len() ==> is_stopword(#[trigger] ws[j]),
    ensures
        meaningful_words(ws).len() == 0,
    decreases ws.len(),
{
    if ws.len() > 0 {
        assert forall|j: int| 0 <= j < ws.drop_last().len() implies is_stopword(#[trigger] ws.drop_last()[j]) by {
            assert(ws.drop_last()[j] == ws[j]);
        }
        lemma_meaningful_none(ws.drop_last());
        assert(is_stopword(ws[ws.len() - 1]));
    }
}

/// A slug carries no filler word: when the first word of the text that is not one of the
/// listed stopwords fits in `max`, the slug is words of the text joined by `-`, at least one,
/// none of them a listed stopword.
pub proof fn law_slugify_drops_stopwords(text: Seq<char>, max: nat, i: int)
    requires
        0 <= i < words_of(text).len(),
        !listed_stopword(words_of(text)[i]),
        words_of(text)[i].len() <= max,
        forall|j: int| 0 <= j < i ==> listed_stopword(#[trigger] words_of(text)[j]),
    ensures
        exists|ws: Seq<Seq<char>>|
            ws.len() > 0 && spec_slugify(text, max) == joined(ws) && forall|k: int|
                0 <= k < ws.len() ==> !listed_stopword(#[trigger] ws[k]) && words_of(text).contains(ws[k]),
{
    let words = words_of(text);
    lemma_words_ok(text);
    let mw = meaningful_words(words);
    lemma_meaningful_props(words);
    let pre = words.take(i);
    let w = words[i];
    let rest = words.skip(i + 1);
    assert forall|j: int| 0 <= j < pre.len() implies is_stopword(#[trigger] pre[j]) by {
        assert(pre[j] == words[j]);
        assert(listed_stopword(words[j]));
    }
    lemma_meaningful_none(pre);
    assert(!is_stopword(w));
    assert(words =~= pre + (seq![w] + rest));
    lemma_meaningful_concat(pre, seq![w] + rest);
    lemma_meaningful_concat(seq![w], rest);
    let one = seq![w];
    assert(one.drop_last() =~= Seq::<Seq<char>>::empty());
    assert(one.last() == w);
    assert(meaningful_words(one.drop_last()).len() == 0);
    assert(meaningful_words(one) == meaningful_words(one.drop_last()).push(w));
    assert(meaningful_words(one) =~= seq![w]);
    assert(mw =~= seq![w] + meaningful_words(rest));
    assert(mw[0] == w);
    lemma_pack_count_pos(mw, max, mw.len());
    lemma_pack_shape(mw, max, mw.len());
    let c = pack_count(mw, max, mw.len());
    let t = mw.take(c as int);
    assert(pick(mw, max) == joined(t));
    assert(word_ok(w));
    assert(t.last() == mw[c - 1]);
    assert(word_ok(t.last())) by {
        assert(exists|j: int| 0 <= j < words.len() && words[j] == mw[c - 1]);
        let j = choose|j: int| 0 <= j < words.len() && words[j] == mw[c - 1];
        assert(word_ok(words[j]));
    }
    assert(joined(t).len() > 0);
    assert(spec_slugify(text, max) == joined(t));
    assert forall|k: int| 0 <= k < t.len() implies !listed_stopword(#[trigger] t[k]) && words.contains(t[k]) by {
        assert(t[k] == mw[k]);
        assert(!is_stopword(mw[k]));
        let j = choose|j: int| 0 <= j < words.len() && words[j] == mw[k];
        assert(words[j] == t[k]);
    }
}

/// A single word slugifies to itself when it fits.
proof fn lemma_slugify_word(w: Seq<char>, max: nat)
    requires
        word_ok(w),
        w.len() <= max,
    ensures
        spec_slugify(w, max) == w,
{
    let ws = seq![w];
    assert(all_words_ok(ws));
    assert(joined(ws) == w) by {
        assert(ws.drop_last() =~= Seq::<Seq<char>>::empty());
        assert(joined(ws.drop_last()).len() == 0);
        assert(ws.last() == w);
    }
    lemma_words_joined(ws);
    lemma_pick_all(ws, max);
    let m = meaningful_words(ws);
    assert(m == meaningful_words(ws.drop_last()) || m == meaningful_words(ws.drop_last()).push(w));
    assert(ws.drop_last() =~= Seq::<Seq<char>>::empty());
    if !is_stopword(w) {
        assert(m =~= ws);
    } else {
        assert(m.len() == 0);
        assert(pick(m, max).len() == 0);
    }
}

/// Slugifying a slug gives the same slug back (for a length limit of at least 4, the length of
/// the fallback `item`).
pub proof fn law_slugify_idempotent(text: Seq<char>, max: nat)
    requires
        max >= 4,
    ensures
        spec_slugify(spec_slugify(text, max), max) == spec_slugify(text, max),
{
    reveal_strlit("item");
    let words = words_of(text);
    lemma_words_ok(text);
    let mw = meaningful_words(words);
    lemma_filter_ok(words);
    lemma_meaningful_props(words);
    lemma_pick_prefix(mw, max);
    lemma_pick_prefix(words, max);
    let a = pick(mw, max);
    let b = if a.len() == 0 { pick(words, max) } else { a };
    let out = spec_slugify(text, max);
    if a.len() > 0 {
        // the picked meaningful words, none a stopword, slugify to themselves
        let p = pack_count(mw, max, mw.len());
        let t = mw.take(p as int);
        assert(all_words_ok(t)) by {
            assert forall|i: int| 0 <= i < t.len() implies #[trigger] word_ok(t[i]) by {
                assert(t[i] == mw[i]);
            }
        }
        assert forall|i: int| 0 <= i < t.len() implies !is_stopword(#[trigger] t[i]) by {
            assert(t[i] == mw[i]);
        }
        lemma_words_joined(t);
        lemma_meaningful_id(t);
        lemma_pick_all(t, max);
        assert(out == joined(t));
    } else if b.len() > 0 {
        // no meaningful word fits; the picked words hold none that fits either
        let p = pack_count(words, max, words.len());
        let t = words.take(p as int);
        assert(all_words_ok(t)) by {
            assert forall|i: int| 0 <= i < t.len() implies #[trigger] word_ok(t[i]) by {
                assert(t[i] == words[i]);
            }
        }
        lemma_words_joined(t);
        lemma_pick_all(t, max);
        let mt = meaningful_words(t);
        lemma_filter_ok(t);
        lemma_meaningful_props(t);
        assert(words =~= t + words.skip(p as int));
        lemma_meaningful_concat(t, words.skip(p as int));
        if mt.len() > 0 {
            assert(mw[0] == mt[0]);
            let j = choose|j: int| 0 <= j < t.len() && t[j] == mt[0];
            lemma_word_le_joined(t, j);
            assert(false);
        }
        lemma_pick_prefix(mt, max);
        assert(out == joined(t));
    } else if words.len() > 0 {
        // the first word, cut to `max`
        let w = words[0];
        assert(word_ok(w));
        assert(w.len() > max);
        let c = w.take(max as int);
        assert(word_ok(c)) by {
            assert forall|i: int| 0 <= i < c.len() implies #[trigger] type_char(c[i]) by {
                assert(c[i] == w[i]);
            }
        }
        assert(out == c);
        lemma_slugify_word(c, max);
    } else {
        assert(out == "item"@);
        assert(word_ok("item"@)) by {
            assert forall|i: int| 0 <= i < 4 implies #[trigger] type_char("item"@[i]) by {}
        }
        lemma_slugify_word("item"@, max);
    }
}

/// A slug made from free text fits in `max` characters, and satisfies the slug grammar
/// whenever `max` allows one character.
pub proof fn law_slugify_valid(text: Seq<char>, max: nat)
    ensures
        max >= 1 ==> spec_valid_slug(spec_slugify(text, max)),
        spec_slugify(text, max).len() <= max,
{
    let words = words_of(text);
    lemma_words_ok(text);
    let meaningful = meaningful_words(words);
    lemma_filter_ok(words);
    lemma_pack_ok(meaningful, max, meaningful.len());
    lemma_pack_ok(words, max, words.len());
    let a = pick(meaningful, max);
    let b = if a.len() == 0 {
        pick(words, max)
    } else {
        a
    };
    if b.len() == 0 && words.len() > 0 {
        let w = words[0];
        assert(word_ok(w));
        let m = if max < w.len() {
            max as int
        } else {
            w.len() as int
        };
        let c = w.take(m);
        if c.len() > 0 {
            assert(word_ok(c)) by {
                assert forall|i: int| 0 <= i < c.len() implies #[trigger] type_char(c[i]) by {
                    assert(c[i] == w[i]);
                }
            }
            lemma_word_is_slug(c);
        }
    }
    reveal_strlit("item");
    if max >= 1 {
        let f = fallback_slug(max);
        assert(f.len() >= 1);
        assert(word_ok(f)) by {
            assert forall|i: int| 0 <= i < f.len() implies #[trigger] type_char(f[i]) by {
                assert(f[i] == "item"@[i]);
            }
        }
        lemma_word_is_slug(f);
    }
}

// ---------- exec ----------

/// The character sequences held by a list of character vectors.
pub open spec fn views(v: Seq<Vec<char>>) -> Seq<Seq<char>> {
    v.map_values(|w: Vec<char>| w@)
}

fn copy_chars(v: &Vec<char>) -> (r: Vec<char>)
    ensures
        r@ == v@,
{
    let mut out: Vec<char> = Vec::new();
    let mut i: usize = 0;
    while i < v.len()
        invariant
            i <= v@.len(),
            out@ == v@.take(i as int),
        decreases v@.len() - i,
    {
        out.push(v[i]);
        proof {
            assert(v@.take(i as int + 1) == v@.take(i as int).push(v@[i as int]));
        }
        i += 1;
    }
    proof {
        assert(v@.take(v@.len() as int) == v@);
    }
    out
}

fn split_words(v: &Vec<char>) -> (r: Vec<Vec<char>>)
    ensures
        views(r@) == words_of(v@),
{
    let mut ws: Vec<Vec<char>> = Vec::new();
    let mut cur: Vec<char> = Vec::new();
    let mut i: usize = 0;
    while i < v.len()
        invariant
            i <= v@.len(),
            (views(ws@), cur@) == scan_words(v@.take(i as int)),
        decreases v@.len() - i,
    {
        let c = v[i];
        proof {
            assert(v@.take(i as int + 1).drop_last() =~= v@.take(i as int));
        }
        if is_ascii_alnum_exec(c) {
            cur.push(lower_char(c));
        } else if cur.len() > 0 {
            let w = cur;
            ws.push(w);
            cur = Vec::new();
            proof {
                assert(views(ws@) =~= scan_words(v@.take(i as int + 1)).0);
            }
        }
        i += 1;
    }
    proof {
        assert(v@.take(v@.len() as int) == v@);
    }
    if cur.len() > 0 {
        ws.push(cur);
        proof {
            assert(views(ws@) =~= words_of(v@));
        }
    }
    ws
}

fn pick_exec(ws: &Vec<Vec<char>>, max: usize) -> (r: Vec<char>)
    ensures
        r@ == pick(views(ws@), max as nat),
{
    let mut out: Vec<char> = Vec::new();
    let mut i: usize = 0;
    let ghost dv = views(ws@);
    while i < ws.len()
        invariant
            i <= ws@.len(),
            dv == views(ws@),
            pack(dv, max as nat, i as nat) == (out@, false),
            out@.len() <= max,
        decreases ws@.len() - i,
    {
        let w = &ws[i];
        proof {
            assert(dv[i as int] == w@);
        }
        let fits: bool = if out.len() == 0 {
            w.len() <= max
        } else {
            out.len() < max && w.len() <= max - out.len() - 1
        };
        if !fits {
            proof {
                assert(pack(dv, max as nat, (i + 1) as nat) == (out@, true));
                lemma_pack_stays(dv, max as nat, (i + 1) as nat);
            }
            return out;
        }
        let ghost prev = out@;
        if out.len() > 0 {
            out.push('-');
        }
        let mut j: usize = 0;
        let ghost base = out@;
        while j < w.len()
            invariant
                j <= w@.len(),
                out@ == base + w@.take(j as int),
            decreases w@.len() - j,
        {
            out.push(w[j]);
            proof {
                assert(w@.take(j as int + 1) == w@.take(j as int).push(w@[j as int]));
                assert(base + w@.take(j as int + 1) =~= (base + w@.take(j as int)).push(w@[j as int]));
            }
            j += 1;
        }
        proof {
            assert(w@.take(w@.len() as int) =~= w@);
            assert(out@ =~= join_word(prev, w@));
        }
        i += 1;
    }
    proof {
        assert(i == dv.len());
    }
    out
}

/// Once packing stopped, later words change nothing.
proof fn lemma_pack_stays(ws: Seq<Seq<char>>, max: nat, k: nat)
    requires
        1 <= k <= ws.len(),
        pack(ws, max, k).1,
    ensures
        pack(ws, max, ws.len()) == pack(ws, max, k),
    decreases ws.len() - k,
{
    if k < ws.len() {
        lemma_pack_stays(ws, max, k + 1);
    }
}

/// Turn free text into a slug candidate: lowercase alphanumeric words, stopwords dropped, whole
/// words only, up to `max_len` characters. Falls back to the first words if everything was a
/// stopword, to a hard cut of the first word if even that does not fit, and to `item` (cut to
/// `max_len`) when the text has no letters or digits at all.
pub fn slugify(text: &str, max_len: usize) -> (r: String)
    ensures
        r@ == spec_slugify(text@, max_len as nat),
        max_len >= 1 ==> spec_valid_slug(r@),
        r@.len() <= max_len,
{
    proof {
        law_slugify_valid(text@, max_len as nat);
    }
    let v = chars_of(text);
    let words = split_words(&v);
    let ghost wv = views(words@);
    let mut meaningful: Vec<Vec<char>> = Vec::new();
    let mut i: usize = 0;
    while i < words.len()
        invariant
            i <= words@.len(),
            wv == views(words@),
            views(meaningful@) == meaningful_words(wv.take(i as int)),
        decreases words@.len() - i,
    {
        proof {
            let s = wv.take(i as int + 1);
            assert(s.drop_last() =~= wv.take(i as int));
            assert(s.last() == wv[i as int]);
            assert(wv[i as int] == words@[i as int]@);

        }
        if !stopword(&words[i]) {
            meaningful.push(copy_chars(&words[i]));
            proof {
                assert(views(meaningful@) =~= meaningful_words(wv.take(i as int + 1)));
            }
        }
        i += 1;
    }
    proof {
        assert(wv.take(wv.len() as int) =~= wv);
    }
    let mut out = pick_exec(&meaningful, max_len);
    if out.len() == 0 {
        out = pick_exec(&words, max_len);
    }
    if out.len() == 0 && words.len() > 0 {
        let w = &words[0];
        let m = if max_len < w.len() {
            max_len
        } else {
            w.len()
        };
        let mut cut: Vec<char> = Vec::new();
        let mut j: usize = 0;
        while j < m
            invariant
                m <= w@.len(),
                j <= m,
                cut@ == w@.take(j as int),
            decreases m - j,
        {
            cut.push(w[j]);
            proof {
                assert(w@.take(j as int + 1) == w@.take(j as int).push(w@[j as int]));
            }
            j += 1;
        }
        proof {
            assert(wv[0] == w@);
        }
        out = cut;
    }
    if out.len() == 0 {
        let item = chars_of("item");
        let n = if max_len < 4 { max_len } else { 4 };
        proof {
            reveal_strlit("item");
        }
        string_of(crate::segment::sub_chars(&item, 0, n).as_slice())
    } else {
        string_of(out.as_slice())
    }
}

/// What is wrong with id text `s`, as a message (kinds as `spec_parse_error` numbers them).
pub open spec fn parse_error_message(s: Seq<char>, kind: int) -> Seq<char> {
    if kind == 0 {
        "id `"@ + s + "` must have exactly three `~`-separated parts"@
    } else if kind == 1 {
        "id `"@ + s + "`: bad type (want [a-z][a-z0-9]*)"@
    } else if kind == 2 {
        "id `"@ + s + "`: bad slug (want [a-z0-9]+(-[a-z0-9]+)*)"@
    } else {
        "id `"@ + s + "`: bad rev (want positive integer, no leading zero)"@
    }
}

impl IdError {
    /// The error as a message.
    pub fn message(&self) -> (r: String)
        ensures
            r@ == parse_error_message(error_text(*self), error_kind(*self)),
    {
        let (t, tail) = match self {
            IdError::Shape(t) => (t, "` must have exactly three `~`-separated parts"),
            IdError::Type(t) => (t, "`: bad type (want [a-z][a-z0-9]*)"),
            IdError::Slug(t) => (t, "`: bad slug (want [a-z0-9]+(-[a-z0-9]+)*)"),
            IdError::Rev(t) => (t, "`: bad rev (want positive integer, no leading zero)"),
        };
        let mut s = copy_str("id `");
        push_str(&mut s, t.as_str());
        push_str(&mut s, tail);
        s
    }
}

/// `qst`, `req` and `grp` are valid types.
pub proof fn lemma_valid_type_qst()
    ensures
        spec_valid_type("qst"@),
        spec_valid_type("req"@),
        spec_valid_type("grp"@),
{
    reveal_strlit("qst");
    reveal_strlit("req");
    reveal_strlit("grp");
}

} // verus!
