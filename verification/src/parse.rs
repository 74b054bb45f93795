//! The schema parser.
//!
//! Recursive descent over bytes, following the grammar
//!
//! ```text
//! schema      := declaration (',' declaration)* ','?
//! declaration := kind name? ':' type_ref body?
//! kind        := 'service' | 'characteristic' | 'descriptor' | 'attribute'
//! type_ref    := identifier ('::' identifier)*
//! body        := '{' (size_literal | schema) '}'
//! ```
//!
//! Whitespace may separate tokens; a `type_ref` is written without internal
//! whitespace. The parser is pinned to the mathematical parser `sp_parse`:
//! parsing is a pure function of the input bytes. It builds the tree and
//! checks each declaration's shape; the nesting rules between kinds are the
//! layout compiler's to enforce.

use vstd::prelude::*;
use crate::GattError;
use crate::schema::{deep_seq, Kind, SchemaNode, SchemaNodeV};

verus! {

/// An ASCII whitespace byte.
pub open spec fn is_ws(c: u8) -> bool {
    c == 32 || c == 9 || c == 10 || c == 13
}

/// A byte that may start an identifier.
pub open spec fn is_ident_start(c: u8) -> bool {
    (65 <= c <= 90) || (97 <= c <= 122) || c == 95
}

/// A byte that may continue an identifier.
pub open spec fn is_ident_cont(c: u8) -> bool {
    is_ident_start(c) || (48 <= c <= 57)
}

/// An ASCII digit.
pub open spec fn is_digit(c: u8) -> bool {
    48 <= c <= 57
}

/// Clamps a scan result into `[i, s.len()]`.
pub open spec fn clamp(s: Seq<u8>, i: int, r: int) -> int {
    if r < i {
        i
    } else if r > s.len() {
        s.len() as int
    } else {
        r
    }
}

pub open spec fn sk_raw(s: Seq<u8>, i: int) -> int
    decreases s.len() - i,
{
    if 0 <= i < s.len() && is_ws(s[i]) {
        sk_raw(s, i + 1)
    } else {
        i
    }
}

/// The first position at or after `i` that does not hold whitespace.
pub open spec fn skip_ws(s: Seq<u8>, i: int) -> int {
    clamp(s, i, sk_raw(s, i))
}

pub open spec fn ie_raw(s: Seq<u8>, i: int) -> int
    decreases s.len() - i,
{
    if 0 <= i < s.len() && is_ident_cont(s[i]) {
        ie_raw(s, i + 1)
    } else {
        i
    }
}

/// The end of an identifier whose continuation starts at `i`.
pub open spec fn ident_end(s: Seq<u8>, i: int) -> int {
    clamp(s, i, ie_raw(s, i))
}

pub open spec fn dg_raw(s: Seq<u8>, i: int) -> int
    decreases s.len() - i,
{
    if 0 <= i < s.len() && is_digit(s[i]) {
        dg_raw(s, i + 1)
    } else {
        i
    }
}

/// The end of the digit run starting at `i`.
pub open spec fn digits_end(s: Seq<u8>, i: int) -> int {
    clamp(s, i, dg_raw(s, i))
}

/// The value of the digits `s[i..j)`, most significant first.
pub open spec fn digits_val(s: Seq<u8>, i: int, j: int) -> int
    decreases j - i,
{
    if j <= i {
        0
    } else {
        digits_val(s, i, j - 1) * 10 + (s[j - 1] - 48)
    }
}

proof fn lemma_sk_raw_bounds(s: Seq<u8>, i: int)
    requires
        0 <= i <= s.len(),
    ensures
        i <= sk_raw(s, i) <= s.len(),
        skip_ws(s, i) == sk_raw(s, i),
    decreases s.len() - i,
{
    if i < s.len() && is_ws(s[i]) {
        lemma_sk_raw_bounds(s, i + 1);
    }
}

proof fn lemma_ie_raw_bounds(s: Seq<u8>, i: int)
    requires
        0 <= i <= s.len(),
    ensures
        i <= ie_raw(s, i) <= s.len(),
        ident_end(s, i) == ie_raw(s, i),
    decreases s.len() - i,
{
    if i < s.len() && is_ident_cont(s[i]) {
        lemma_ie_raw_bounds(s, i + 1);
    }
}

proof fn lemma_dg_raw_bounds(s: Seq<u8>, i: int)
    requires
        0 <= i <= s.len(),
    ensures
        i <= dg_raw(s, i) <= s.len(),
        digits_end(s, i) == dg_raw(s, i),
    decreases s.len() - i,
{
    if i < s.len() && is_digit(s[i]) {
        lemma_dg_raw_bounds(s, i + 1);
    }
}

/// The digits of a digit run are digits, and its value is non-negative.
proof fn lemma_digits_val_nonneg(s: Seq<u8>, i: int, j: int)
    requires
        forall|m: int| i <= m < j ==> is_digit(#[trigger] s[m]),
    ensures
        0 <= digits_val(s, i, j),
    decreases j - i,
{
    if j > i {
        lemma_digits_val_nonneg(s, i, j - 1);
    }
}

/// The keyword naming each declaration kind, if the identifier is one.
pub open spec fn kw_kind(w: Seq<u8>) -> Option<Kind> {
    if w == seq![115u8, 101u8, 114u8, 118u8, 105u8, 99u8, 101u8] {
        Some(Kind::Service)
    } else if w == seq![
        99u8,
        104u8,
        97u8,
        114u8,
        97u8,
        99u8,
        116u8,
        101u8,
        114u8,
        105u8,
        115u8,
        116u8,
        105u8,
        99u8,
    ] {
        Some(Kind::Characteristic)
    } else if w == seq![100u8, 101u8, 115u8, 99u8, 114u8, 105u8, 112u8, 116u8, 111u8, 114u8] {
        Some(Kind::Descriptor)
    } else if w == seq![97u8, 116u8, 116u8, 114u8, 105u8, 98u8, 117u8, 116u8, 101u8] {
        Some(Kind::Attribute)
    } else {
        None
    }
}

/// The end of an identifier path: after `ident_end` of the first segment,
/// every `::` must be followed by another identifier.
pub open spec fn path_end(s: Seq<u8>, i: int) -> Result<int, GattError>
    decreases s.len() - i,
{
    if i + 1 < s.len() && s[i] == 58 && s[i + 1] == 58 {
        if i + 2 < s.len() && is_ident_start(s[i + 2]) {
            path_end(s, ident_end(s, i + 3))
        } else {
            Err(GattError::SyntaxError)
        }
    } else {
        Ok(i)
    }
}

proof fn lemma_path_end_bounds(s: Seq<u8>, i: int)
    requires
        0 <= i <= s.len(),
    ensures
        (match path_end(s, i) {
            Ok(p) => i <= p <= s.len(),
            Err(_) => true,
        }),
    decreases s.len() - i,
{
    if i + 1 < s.len() && s[i] == 58 && s[i + 1] == 58 {
        if i + 2 < s.len() && is_ident_start(s[i + 2]) {
            lemma_ie_raw_bounds(s, i + 3);
            lemma_path_end_bounds(s, ident_end(s, i + 3));
        }
    }
}

/// Parses `kind name? ':' type_ref` at `j` (no leading whitespace): the kind,
/// the optional name, the type reference bytes, and the position after it.
pub open spec fn sp_header(s: Seq<u8>, j: int) -> Result<
    (Kind, Option<Seq<u8>>, Seq<u8>, int),
    GattError,
> {
    if !(j < s.len() && is_ident_start(s[j])) {
        Err(GattError::SyntaxError)
    } else {
        let ke = ident_end(s, j + 1);
        match kw_kind(s.subrange(j, ke)) {
            None => Err(GattError::SyntaxError),
            Some(kind) => {
                let j2 = skip_ws(s, ke);
                let name: Option<Seq<u8>> = if j2 < s.len() && is_ident_start(s[j2]) {
                    Some(s.subrange(j2, ident_end(s, j2 + 1)))
                } else {
                    None
                };
                let cpos = if j2 < s.len() && is_ident_start(s[j2]) {
                    skip_ws(s, ident_end(s, j2 + 1))
                } else {
                    j2
                };
                if !(cpos < s.len() && s[cpos] == 58) {
                    Err(GattError::SyntaxError)
                } else {
                    let p0 = skip_ws(s, cpos + 1);
                    if !(p0 < s.len() && is_ident_start(s[p0])) {
                        Err(GattError::SyntaxError)
                    } else {
                        match path_end(s, ident_end(s, p0 + 1)) {
                            Err(e) => Err(e),
                            Ok(pe) => Ok((kind, name, s.subrange(p0, pe), pe)),
                        }
                    }
                }
            },
        }
    }
}

/// Parses a brace-enclosed size literal: `digits ws* '}'` starting at `i`
/// (just after the opening brace). The value must fit the declared size
/// width.
pub open spec fn sp_size(s: Seq<u8>, i: int) -> Result<(u64, int), GattError> {
    let d0 = skip_ws(s, i);
    if !(d0 < s.len() && is_digit(s[d0])) {
        Err(GattError::SyntaxError)
    } else {
        let de = digits_end(s, d0);
        let v = digits_val(s, d0, de);
        if v > u64::MAX {
            Err(GattError::InvalidSize)
        } else {
            let rb = skip_ws(s, de);
            if rb < s.len() && s[rb] == 125 {
                Ok((v as u64, rb + 1))
            } else {
                Err(GattError::SyntaxError)
            }
        }
    }
}

/// Parses a comma-separated declaration list starting at `i`. A nested list
/// stops before a closing brace; the top-level list stops at the end of the
/// input. Returns the nodes and the stop position.
pub open spec fn sp_decls(s: Seq<u8>, i: int, nested: bool) -> Result<
    (Seq<SchemaNodeV>, int),
    GattError,
>
    decreases s.len() - i,
    when 0 <= i <= s.len()
{
    let j = skip_ws(s, i);
    if (nested && j < s.len() && s[j] == 125) || (!nested && j >= s.len()) {
        Ok((Seq::empty(), j))
    } else {
        match sp_header(s, j) {
            Err(e) => Err(e),
            Ok((kind, name, tref, p0)) => {
                let p = if p0 <= j {
                    j + 1
                } else {
                    p0
                };
                let q = skip_ws(s, p);
                let body: Result<(Seq<SchemaNodeV>, u64, int), GattError> = if q < s.len() && s[q]
                    == 123 {
                    if kind == Kind::Attribute {
                        match sp_size(s, q + 1) {
                            Err(e) => Err(e),
                            Ok((sz, p2)) => Ok((Seq::empty(), sz, p2)),
                        }
                    } else {
                        match sp_decls(s, q + 1, true) {
                            Err(e) => Err(e),
                            Ok((children, p2)) => {
                                let p2c = if p2 < q + 1 {
                                    q + 1
                                } else {
                                    p2
                                };
                                let p3 = skip_ws(s, p2c);
                                if p3 < s.len() && s[p3] == 125 {
                                    Ok((children, 0u64, p3 + 1))
                                } else {
                                    Err(GattError::SyntaxError)
                                }
                            },
                        }
                    }
                } else {
                    Ok((Seq::empty(), 0u64, p))
                };
                match body {
                    Err(e) => Err(e),
                    Ok((children, size, pc)) => {
                        let node = SchemaNodeV { kind, name, type_ref: tref, children, size };
                        let qq = skip_ws(s, pc);
                        if qq < s.len() && s[qq] == 44 {
                            match sp_decls(s, qq + 1, nested) {
                                Err(e) => Err(e),
                                Ok((rest, pe)) => Ok((seq![node] + rest, pe)),
                            }
                        } else {
                            Ok((seq![node], qq))
                        }
                    },
                }
            },
        }
    }
}

/// The mathematical parser: the tree is a pure function of the input bytes.
/// The whole input must be one declaration list.
pub open spec fn sp_parse(s: Seq<u8>) -> Result<Seq<SchemaNodeV>, GattError> {
    match sp_decls(s, 0, false) {
        Err(e) => Err(e),
        Ok((ns, p)) => if p == s.len() {
            Ok(ns)
        } else {
            Err(GattError::SyntaxError)
        },
    }
}

fn is_ws_x(c: u8) -> (r: bool)
    ensures
        r == is_ws(c),
{
    c == 32 || c == 9 || c == 10 || c == 13
}

fn is_ident_start_x(c: u8) -> (r: bool)
    ensures
        r == is_ident_start(c),
{
    (65 <= c && c <= 90) || (97 <= c && c <= 122) || c == 95
}

fn is_ident_cont_x(c: u8) -> (r: bool)
    ensures
        r == is_ident_cont(c),
{
    is_ident_start_x(c) || (48 <= c && c <= 57)
}

fn is_digit_x(c: u8) -> (r: bool)
    ensures
        r == is_digit(c),
{
    48 <= c && c <= 57
}

#[verifier::loop_isolation(false)]
fn skip_ws_x(input: &[u8], i: usize) -> (r: usize)
    requires
        i <= input@.len(),
    ensures
        r == skip_ws(input@, i as int),
        i <= r <= input@.len(),
{
    proof {
        lemma_sk_raw_bounds(input@, i as int);
    }
    let mut c = i;
    while c < input.len() && is_ws_x(input[c])
        invariant
            i <= c <= input@.len(),
            sk_raw(input@, i as int) == sk_raw(input@, c as int),
        decreases input@.len() - c,
    {
        c = c + 1;
    }
    c
}

#[verifier::loop_isolation(false)]
fn ident_end_x(input: &[u8], i: usize) -> (r: usize)
    requires
        i <= input@.len(),
    ensures
        r == ident_end(input@, i as int),
        i <= r <= input@.len(),
{
    proof {
        lemma_ie_raw_bounds(input@, i as int);
    }
    let mut c = i;
    while c < input.len() && is_ident_cont_x(input[c])
        invariant
            i <= c <= input@.len(),
            ie_raw(input@, i as int) == ie_raw(input@, c as int),
        decreases input@.len() - c,
    {
        c = c + 1;
    }
    c
}

/// Copies `input[start..end)` into a fresh vector.
#[verifier::loop_isolation(false)]
fn copy_range(input: &[u8], start: usize, end: usize) -> (r: Vec<u8>)
    requires
        start <= end <= input@.len(),
    ensures
        r@ == input@.subrange(start as int, end as int),
{
    let mut r: Vec<u8> = Vec::new();
    let mut k = start;
    while k < end
        invariant
            start <= k <= end,
            r@ == input@.subrange(start as int, k as int),
        decreases end - k,
    {
        r.push(input[k]);
        proof {
            assert(input@.subrange(start as int, k + 1) =~= input@.subrange(
                start as int,
                k as int,
            ).push(input@[k as int]));
        }
        k = k + 1;
    }
    proof {
        assert(r@ =~= input@.subrange(start as int, end as int));
    }
    r
}

/// Whether `input[start..end)` spells the keyword of the given kind.
#[verifier::loop_isolation(false)]
fn ident_kind(input: &[u8], start: usize, end: usize) -> (r: Option<Kind>)
    requires
        start <= end <= input@.len(),
    ensures
        r == kw_kind(input@.subrange(start as int, end as int)),
{
    let w = copy_range(input, start, end);
    let service: [u8; 7] = [115, 101, 114, 118, 105, 99, 101];
    let characteristic: [u8; 14] = [99, 104, 97, 114, 97, 99, 116, 101, 114, 105, 115, 116, 105, 99];
    let descriptor: [u8; 10] = [100, 101, 115, 99, 114, 105, 112, 116, 111, 114];
    let attribute: [u8; 9] = [97, 116, 116, 114, 105, 98, 117, 116, 101];
    if eq_arr(&w, service.as_slice()) {
        proof {
            assert(w@ =~= seq![115u8, 101u8, 114u8, 118u8, 105u8, 99u8, 101u8]);
        }
        Some(Kind::Service)
    } else if eq_arr(&w, characteristic.as_slice()) {
        proof {
            assert(w@ =~= seq![
                99u8,
                104u8,
                97u8,
                114u8,
                97u8,
                99u8,
                116u8,
                101u8,
                114u8,
                105u8,
                115u8,
                116u8,
                105u8,
                99u8,
            ]);
        }
        Some(Kind::Characteristic)
    } else if eq_arr(&w, descriptor.as_slice()) {
        proof {
            assert(w@ =~= seq![100u8, 101u8, 115u8, 99u8, 114u8, 105u8, 112u8, 116u8, 111u8, 114u8]);
        }
        Some(Kind::Descriptor)
    } else if eq_arr(&w, attribute.as_slice()) {
        proof {
            assert(w@ =~= seq![97u8, 116u8, 116u8, 114u8, 105u8, 98u8, 117u8, 116u8, 101u8]);
        }
        Some(Kind::Attribute)
    } else {
        None
    }
}

/// Whether the two byte sequences are equal.
#[verifier::loop_isolation(false)]
fn eq_arr(a: &Vec<u8>, b: &[u8]) -> (r: bool)
    ensures
        r <==> a@ == b@,
{
    if a.len() != b.len() {
        proof {
            assert(a@ != b@);
        }
        return false;
    }
    let mut i: usize = 0;
    while i < a.len()
        invariant
            i <= a.len(),
            a@.len() == b@.len(),
            forall|j: int| 0 <= j < i ==> a@[j] == b@[j],
        decreases a.len() - i,
    {
        if a[i] != b[i] {
            proof {
                assert(a@ != b@);
            }
            return false;
        }
        i = i + 1;
    }
    proof {
        assert(a@ =~= b@);
    }
    true
}

/// Parses a declaration's `kind name? ':' type_ref` header.
#[verifier::loop_isolation(false)]
fn parse_header(input: &[u8], j: usize) -> (r: Result<
    (Kind, Option<Vec<u8>>, Vec<u8>, usize),
    GattError,
>)
    requires
        j <= input@.len(),
    ensures
        (match r {
            Ok((kind, name, tref, p)) => {
                &&& sp_header(input@, j as int) == Ok::<(Kind, Option<Seq<u8>>, Seq<u8>, int), GattError>(
                    (
                        kind,
                        match name {
                            Some(n) => Some(n@),
                            None => None,
                        },
                        tref@,
                        p as int,
                    ),
                )
                &&& j < p <= input@.len()
            },
            Err(e) => sp_header(input@, j as int) == Err::<
                (Kind, Option<Seq<u8>>, Seq<u8>, int),
                GattError,
            >(e),
        }),
{
    if !(j < input.len() && is_ident_start_x(input[j])) {
        return Err(GattError::SyntaxError);
    }
    let ke = ident_end_x(input, j + 1);
    let kind = match ident_kind(input, j, ke) {
        Some(k) => k,
        None => {
            return Err(GattError::SyntaxError);
        },
    };
    let j2 = skip_ws_x(input, ke);
    let mut name: Option<Vec<u8>> = None;
    let mut cpos = j2;
    if j2 < input.len() && is_ident_start_x(input[j2]) {
        let ne = ident_end_x(input, j2 + 1);
        name = Some(copy_range(input, j2, ne));
        cpos = skip_ws_x(input, ne);
    }
    if !(cpos < input.len() && input[cpos] == 58) {
        return Err(GattError::SyntaxError);
    }
    let p0 = skip_ws_x(input, cpos + 1);
    if !(p0 < input.len() && is_ident_start_x(input[p0])) {
        return Err(GattError::SyntaxError);
    }
    let first_end = ident_end_x(input, p0 + 1);
    let mut cur = first_end;
    proof {
        lemma_path_end_bounds(input@, cur as int);
    }
    loop
        invariant
            p0 < cur <= input@.len(),
            path_end(input@, first_end as int) == path_end(input@, cur as int),
        decreases input@.len() - cur,
    {
        if cur < input.len() && cur + 1 < input.len() && input[cur] == 58 && input[cur + 1]
            == 58 {
            if cur + 2 < input.len() && is_ident_start_x(input[cur + 2]) {
                let nxt = ident_end_x(input, cur + 3);
                proof {
                    assert(path_end(input@, cur as int) == path_end(input@, nxt as int));
                }
                cur = nxt;
            } else {
                return Err(GattError::SyntaxError);
            }
        } else {
            proof {
                assert(path_end(input@, cur as int) == Ok::<int, GattError>(cur as int));
            }
            break;
        }
    }
    let tref = copy_range(input, p0, cur);
    Ok((kind, name, tref, cur))
}

/// Parses a brace-enclosed attribute size literal.
#[verifier::loop_isolation(false)]
fn parse_size(input: &[u8], i: usize) -> (r: Result<(u64, usize), GattError>)
    requires
        i <= input@.len(),
    ensures
        (match r {
            Ok((v, p)) => sp_size(input@, i as int) == Ok::<(u64, int), GattError>((v, p as int))
                && i < p <= input@.len(),
            Err(e) => sp_size(input@, i as int) == Err::<(u64, int), GattError>(e),
        }),
{
    let d0 = skip_ws_x(input, i);
    if !(d0 < input.len() && is_digit_x(input[d0])) {
        return Err(GattError::SyntaxError);
    }
    proof {
        lemma_dg_raw_bounds(input@, d0 as int);
    }
    let mut cur = d0;
    let mut acc: u128 = 0;
    let ghost cap: int = u64::MAX as int + 1;
    while cur < input.len() && is_digit_x(input[cur])
        invariant
            d0 <= cur <= input@.len(),
            dg_raw(input@, d0 as int) == dg_raw(input@, cur as int),
            forall|m: int| d0 <= m < cur ==> is_digit(#[trigger] input@[m]),
            acc <= cap,
            digits_val(input@, d0 as int, cur as int) <= u64::MAX ==> acc == digits_val(
                input@,
                d0 as int,
                cur as int,
            ),
            digits_val(input@, d0 as int, cur as int) > u64::MAX ==> acc == cap,
        decreases input@.len() - cur,
    {
        let d = input[cur];
        proof {
            lemma_digits_val_nonneg(input@, d0 as int, cur as int);
            assert(digits_val(input@, d0 as int, cur + 1) == digits_val(
                input@,
                d0 as int,
                cur as int,
            ) * 10 + (input@[cur as int] - 48));
        }
        if acc > u64::MAX as u128 {
            acc = u64::MAX as u128 + 1;
        } else {
            acc = acc * 10 + ((d - 48) as u128);
            if acc > u64::MAX as u128 {
                acc = u64::MAX as u128 + 1;
            }
        }
        cur = cur + 1;
    }
    let ghost de = digits_end(input@, d0 as int);
    proof {
        assert(de == cur as int);
    }
    if acc > u64::MAX as u128 {
        return Err(GattError::InvalidSize);
    }
    let v = acc as u64;
    let rb = skip_ws_x(input, cur);
    if rb < input.len() && input[rb] == 125 {
        Ok((v, rb + 1))
    } else {
        Err(GattError::SyntaxError)
    }
}

/// Parses a comma-separated declaration list starting at `i`; a nested list
/// stops before a closing brace, the top-level list at the end of the input.
#[verifier::loop_isolation(false)]
#[verifier::rlimit(100)]
fn parse_decls(input: &[u8], i: usize, nested: bool) -> (r: Result<
    (Vec<SchemaNode>, usize),
    GattError,
>)
    requires
        i <= input@.len(),
    ensures
        (match r {
            Ok((nodes, p)) => sp_decls(input@, i as int, nested) == Ok::<
                (Seq<SchemaNodeV>, int),
                GattError,
            >((deep_seq(nodes@), p as int)) && i <= p <= input@.len(),
            Err(e) => sp_decls(input@, i as int, nested) == Err::<
                (Seq<SchemaNodeV>, int),
                GattError,
            >(e),
        }),
    decreases input@.len() - i,
{
    let j = skip_ws_x(input, i);
    let at_end = if nested {
        j < input.len() && input[j] == 125
    } else {
        j >= input.len()
    };
    if at_end {
        let nodes: Vec<SchemaNode> = Vec::new();
        proof {
            assert(deep_seq(nodes@) =~= Seq::<SchemaNodeV>::empty());
        }
        return Ok((nodes, j));
    }
    let (kind, name, tref, p) = match parse_header(input, j) {
        Ok(h) => h,
        Err(e) => {
            return Err(e);
        },
    };
    let q = skip_ws_x(input, p);
    let mut children: Vec<SchemaNode> = Vec::new();
    let mut size: u64 = 0;
    let pc: usize;
    if q < input.len() && input[q] == 123 {
        if kind == Kind::Attribute {
            match parse_size(input, q + 1) {
                Ok((sz, p2)) => {
                    size = sz;
                    pc = p2;
                },
                Err(e) => {
                    return Err(e);
                },
            }
        } else {
            match parse_decls(input, q + 1, true) {
                Ok((cs, p2)) => {
                    children = cs;
                    proof {
                        assert(q + 1 <= p2 as int);
                    }
                    let p3 = skip_ws_x(input, p2);
                    if p3 < input.len() && input[p3] == 125 {
                        pc = p3 + 1;
                    } else {
                        return Err(GattError::SyntaxError);
                    }
                },
                Err(e) => {
                    return Err(e);
                },
            }
        }
    } else {
        pc = p;
    }
    proof {
        assert(children@.len() == 0 ==> deep_seq(children@) =~= Seq::<SchemaNodeV>::empty());
    }
    let ghost nodev = SchemaNodeV {
        kind,
        name: match name {
            Some(ref n) => Some(n@),
            None => None,
        },
        type_ref: tref@,
        children: deep_seq(children@),
        size,
    };
    let node = SchemaNode { kind, name, type_ref: tref, children, size };
    proof {
        assert(node.deep().children =~= nodev.children);
        assert(node.deep() =~= nodev);
    }
    let qq = skip_ws_x(input, pc);
    if qq < input.len() && input[qq] == 44 {
        match parse_decls(input, qq + 1, nested) {
            Ok((rest, pe)) => {
                let mut out: Vec<SchemaNode> = Vec::new();
                out.push(node);
                let mut rest = rest;
                let ghost rest0 = rest@;
                out.append(&mut rest);
                proof {
                    assert(out@.subrange(1, out@.len() as int) =~= rest0);
                    assert(deep_seq(out@) =~= seq![nodev] + deep_seq(rest0));
                }
                Ok((out, pe))
            },
            Err(e) => Err(e),
        }
    } else {
        let mut out: Vec<SchemaNode> = Vec::new();
        out.push(node);
        proof {
            assert(deep_seq(out@) =~= seq![nodev]);
        }
        Ok((out, qq))
    }
}

/// Parses schema text into the declaration tree.
///
/// The result equals the mathematical parser `sp_parse` on the input bytes:
/// one node per declaration, in declaration order, with a `SyntaxError` for a
/// missing or unrecognized kind keyword, a missing `:`, an invalid type
/// reference path, or a brace body of the wrong shape, and an `InvalidSize`
/// for a size literal past the size width.
pub fn parse_schema(input: &[u8]) -> (r: Result<Vec<SchemaNode>, GattError>)
    ensures
        (match r {
            Ok(nodes) => sp_parse(input@) == Ok::<Seq<SchemaNodeV>, GattError>(deep_seq(nodes@)),
            Err(e) => sp_parse(input@) == Err::<Seq<SchemaNodeV>, GattError>(e),
        }),
{
    match parse_decls(input, 0, false) {
        Ok((nodes, p)) => {
            if p == input.len() {
                Ok(nodes)
            } else {
                Err(GattError::SyntaxError)
            }
        },
        Err(e) => Err(e),
    }
}

} // verus!
