//! Accessor names.
//!
//! Every table entry carries an accessor name: the declared name when one was
//! given, otherwise the last segment of the entity's type reference converted
//! to snake case. Repeated use of one entity type across the schema shares one
//! accessor shape, so the distinct type references are also exposed, first
//! occurrence first.

use vstd::prelude::*;
use heck::ToSnakeCase;
use itertools::Itertools;

verus! {

/// What `heck` returns for a given identifier: the snake-case conversion is a
/// function of the input bytes alone.
pub uninterp spec fn snake_of(s: Seq<u8>) -> Seq<u8>;

/// Relies on heck's `ToSnakeCase::to_snake_case`: the conversion reads only
/// the input characters, so its result is a function of the input alone.
#[verifier::external_body]
fn to_snake(b: &Vec<u8>) -> (r: Vec<u8>)
    ensures
        r@ == snake_of(b@),
{
    String::from_utf8_lossy(b).to_snake_case().into_bytes()
}

/// First-occurrence deduplication: keeps each element the first time it is
/// met, in order, and drops every later duplicate.
pub open spec fn dedup_seen(s: Seq<Seq<u8>>, seen: Set<Seq<u8>>) -> Seq<Seq<u8>>
    decreases s.len(),
{
    if s.len() == 0 {
        Seq::empty()
    } else if seen.contains(s[0]) {
        dedup_seen(s.drop_first(), seen)
    } else {
        seq![s[0]] + dedup_seen(s.drop_first(), seen.insert(s[0]))
    }
}

/// The distinct elements of `s`, first occurrence first.
pub open spec fn spec_unique(s: Seq<Seq<u8>>) -> Seq<Seq<u8>> {
    dedup_seen(s, Set::empty())
}

/// Relies on itertools' `Itertools::unique`: it returns the non-duplicate
/// items in the order in which they occur, retaining the first of each set of
/// duplicates (duplicates detected by `Eq`, which compares byte contents).
#[verifier::external_body]
pub(crate) fn unique_bytes(v: Vec<Vec<u8>>) -> (r: Vec<Vec<u8>>)
    ensures
        r.deep_view() == spec_unique(v.deep_view()),
{
    v.into_iter().unique().collect()
}

/// A byte-for-byte copy.
pub fn copy_bytes(v: &Vec<u8>) -> (r: Vec<u8>)
    ensures
        r@ == v@,
{
    let mut r: Vec<u8> = Vec::new();
    let mut i: usize = 0;
    while i < v.len()
        invariant
            i <= v.len(),
            r@ == v@.subrange(0, i as int),
        decreases v.len() - i,
    {
        r.push(v[i]);
        i = i + 1;
    }
    proof {
        assert(r@ =~= v@);
    }
    r
}

/// The start of the last `::`-separated segment of `p`, scanning left from
/// position `i`.
pub open spec fn seg_start(p: Seq<u8>, i: int) -> int
    decreases i,
{
    if i < 2 {
        0
    } else if p[i - 1] == 58u8 && p[i - 2] == 58u8 {
        i
    } else {
        seg_start(p, i - 1)
    }
}

/// The last `::`-separated segment of a type reference path.
pub open spec fn last_segment(p: Seq<u8>) -> Seq<u8> {
    p.subrange(seg_start(p, p.len() as int), p.len() as int)
}

/// Extracts the last `::`-separated segment of a type reference path.
pub fn last_segment_of(p: &Vec<u8>) -> (r: Vec<u8>)
    ensures
        r@ == last_segment(p@),
{
    let mut j: usize = p.len();
    while j >= 2 && !(p[j - 1] == 58u8 && p[j - 2] == 58u8)
        invariant
            j <= p.len(),
            seg_start(p@, p@.len() as int) == seg_start(p@, j as int),
        decreases j,
    {
        j = j - 1;
    }
    if j < 2 {
        j = 0;
    }
    let mut r: Vec<u8> = Vec::new();
    let mut k: usize = j;
    while k < p.len()
        invariant
            j <= k <= p.len(),
            r@ == p@.subrange(j as int, k as int),
        decreases p.len() - k,
    {
        r.push(p[k]);
        k = k + 1;
    }
    proof {
        assert(seg_start(p@, p@.len() as int) == j);
        assert(r@ =~= last_segment(p@));
    }
    r
}

/// The accessor name of an entity: the declared name when present, otherwise
/// the snake-case form of the last segment of its type reference.
pub open spec fn spec_accessor(name: Option<Seq<u8>>, type_ref: Seq<u8>) -> Seq<u8> {
    match name {
        Some(n) => n,
        None => snake_of(last_segment(type_ref)),
    }
}

/// Computes the accessor name of an entity.
pub fn accessor_of(name: &Option<Vec<u8>>, type_ref: &Vec<u8>) -> (r: Vec<u8>)
    ensures
        r@ == spec_accessor(
            match *name {
                Some(n) => Some(n@),
                None => None,
            },
            type_ref@,
        ),
{
    match name {
        Some(n) => copy_bytes(n),
        None => {
            let seg = last_segment_of(type_ref);
            to_snake(&seg)
        },
    }
}

} // verus!
