//! The placeholder pattern language and its metadata extractor.
//!
//! A pattern is a `/`-separated list of segments.  A segment is either the
//! wildcard `**` (zero or more path segments; as the last segment it matches
//! any remainder) or literal text with `{name}` capture placeholders, each
//! matching one or more characters within a single path segment, as few as
//! possible.  `{artist}` and `{author}` bind the artist field, `{series}`
//! the series field and `{issue}` the issue field; other names are parsed
//! and discarded.  The whole pattern is anchored to the whole relative path.

use vstd::prelude::*;

use crate::chars::{chars_of, string_of};
use crate::paths::normalize_seq;
use crate::paths::normalize_chars;

verus! {

/// The metadata field a capture binds to.
#[derive(Clone, Copy, PartialEq, Eq, Structural, Debug)]
pub enum Field {
    Artist,
    Series,
    Issue,
    Discard,
}

/// One piece of a literal segment, at the specification level.
pub enum SpecPiece {
    Lit(Seq<char>),
    Cap(Field),
}

/// One pattern segment, at the specification level.
pub enum SpecSeg {
    Any,
    Pieces(Seq<SpecPiece>),
}

/// One piece of a literal segment: fixed text or a capture.
pub enum Piece {
    Lit(Vec<char>),
    Cap(Field),
}

/// One pattern segment: the `**` wildcard or a pieced literal segment.
pub enum PatSeg {
    Any,
    Pieces(Vec<Piece>),
}

pub open spec fn piece_view(p: Piece) -> SpecPiece {
    match p {
        Piece::Lit(v) => SpecPiece::Lit(v@),
        Piece::Cap(f) => SpecPiece::Cap(f),
    }
}

pub open spec fn pieces_view(s: Seq<Piece>) -> Seq<SpecPiece> {
    s.map_values(|p: Piece| piece_view(p))
}

pub open spec fn seg_view(g: PatSeg) -> SpecSeg {
    match g {
        PatSeg::Any => SpecSeg::Any,
        PatSeg::Pieces(ps) => SpecSeg::Pieces(pieces_view(ps@)),
    }
}

pub open spec fn segs_view(s: Seq<PatSeg>) -> Seq<SpecSeg> {
    s.map_values(|g: PatSeg| seg_view(g))
}

/// The first position of `c` in `s` at or after `i`, or `-1`.
pub open spec fn index_of_from(s: Seq<char>, c: char, i: int) -> int
    decreases s.len() - i,
    when i >= 0
{
    if i < 0 || i >= s.len() {
        -1
    } else if s[i] == c {
        i
    } else {
        index_of_from(s, c, i + 1)
    }
}

proof fn lemma_index_of_from(s: Seq<char>, c: char, i: int)
    requires
        0 <= i,
    ensures
        index_of_from(s, c, i) == -1 || i <= index_of_from(s, c, i) < s.len(),
        index_of_from(s, c, i) >= 0 ==> s[index_of_from(s, c, i)] == c,
        forall|k: int|
            i <= k < s.len() && (index_of_from(s, c, i) == -1 || k < index_of_from(s, c, i))
                ==> s[k] != c,
    decreases s.len() - i,
{
    if i < s.len() && s[i] != c {
        lemma_index_of_from(s, c, i + 1);
    }
}

/// The first position of `c` in `v` at or after `from`, if any.
pub fn index_of_from_chars(v: &Vec<char>, c: char, from: usize) -> (r: Option<usize>)
    ensures
        match r {
            Some(j) => index_of_from(v@, c, from as int) == j && from <= j < v@.len(),
            None => index_of_from(v@, c, from as int) == -1,
        },
{
    let mut j: usize = from;
    while j < v.len()
        invariant
            from <= j,
            index_of_from(v@, c, from as int) == index_of_from(v@, c, j as int),
        decreases v.len() - j,
    {
        if v[j] == c {
            return Some(j);
        }
        j = j + 1;
    }
    None
}

/// The segments of `s` from position `i` on, split on `/` (empty segments
/// kept; a path with no slash is one segment).
pub open spec fn split_from(s: Seq<char>, i: int) -> Seq<Seq<char>>
    decreases s.len() - i,
    when 0 <= i <= s.len()
    via split_from_dec
{
    let j = index_of_from(s, '/', i);
    if j == -1 {
        seq![s.subrange(i, s.len() as int)]
    } else {
        seq![s.subrange(i, j)] + split_from(s, j + 1)
    }
}

#[via_fn]
proof fn split_from_dec(s: Seq<char>, i: int) {
    lemma_index_of_from(s, '/', i);
}

/// The path split into segments on `/`.
pub open spec fn split_slash(s: Seq<char>) -> Seq<Seq<char>> {
    split_from(s, 0)
}

fn split_from_chars(v: &Vec<char>, from: usize) -> (r: Vec<Vec<char>>)
    requires
        from <= v.len(),
    ensures
        r.deep_view() == split_from(v@, from as int),
    decreases v@.len() - from,
{
    let mut r: Vec<Vec<char>> = Vec::new();
    match index_of_from_chars(v, '/', from) {
        None => {
            r.push(crate::paths::sub_chars(v, from, v.len()));
            proof {
                assert(r.deep_view() =~~= split_from(v@, from as int));
            }
        },
        Some(j) => {
            let head = crate::paths::sub_chars(v, from, j);
            let rest = split_from_chars(v, j + 1);
            r.push(head);
            let mut k: usize = 0;
            let ghost rest0 = rest;
            let mut rest = rest;
            let rn = rest.len();
            while k < rn
                invariant
                    k <= rn,
                    rn == rest0@.len(),
                    rest@ == rest0@.skip(k as int),
                    r@.len() == 1 + k,
                    r@[0]@ == v@.subrange(from as int, j as int),
                    forall|m: int| 0 <= m < k ==> #[trigger] r@[1 + m]@ == rest0@[m]@,
                decreases rn - k,
            {
                let x = rest.remove(0);
                r.push(x);
                k = k + 1;
            }
            proof {
                let full = split_from(v@, from as int);
                let tailv = split_from(v@, j + 1);
                assert(rest0.deep_view() == tailv);
                assert(r@.len() == 1 + rest0@.len());
                assert(rest0.deep_view().len() == rest0@.len());
                assert(full == seq![v@.subrange(from as int, j as int)] + tailv);
                assert forall|n: int| 0 <= n < r@.len() implies r.deep_view()[n] == full[n] by {
                    if n == 0 {
                        assert(r.deep_view()[0] == r@[0].deep_view());
                        assert(r@[0].deep_view() =~= r@[0]@);
                        assert(full[0] == v@.subrange(from as int, j as int));
                    } else {
                        let m = n - 1;
                        assert(r@[1 + m]@ == rest0@[m]@);
                        assert(r@[n]@ == rest0@[n - 1]@);
                        assert(r.deep_view()[n] == r@[n].deep_view());
                        assert(r@[n].deep_view() =~= r@[n]@);
                        assert(rest0.deep_view()[n - 1] == rest0@[n - 1].deep_view());
                        assert(rest0@[n - 1].deep_view() =~= rest0@[n - 1]@);
                        assert(full[n] == tailv[n - 1]);
                    }
                }
                assert(r.deep_view() =~= full);
            }
        },
    }
    r
}

/// The path split into segments on `/`.
pub fn split_slash_chars(v: &Vec<char>) -> (r: Vec<Vec<char>>)
    ensures
        r.deep_view() == split_slash(v@),
{
    split_from_chars(v, 0)
}

/// The field a placeholder name binds to.
pub open spec fn field_of_spec(name: Seq<char>) -> Field {
    if name == seq!['a', 'r', 't', 'i', 's', 't'] || name == seq!['a', 'u', 't', 'h', 'o', 'r'] {
        Field::Artist
    } else if name == seq!['s', 'e', 'r', 'i', 'e', 's'] {
        Field::Series
    } else if name == seq!['i', 's', 's', 'u', 'e'] {
        Field::Issue
    } else {
        Field::Discard
    }
}

fn eq6(e: &Vec<char>, a: char, b: char, c: char, d: char, f: char, g: char) -> (r: bool)
    ensures
        r == (e@ == seq![a, b, c, d, f, g]),
{
    let r = e.len() == 6 && e[0] == a && e[1] == b && e[2] == c && e[3] == d && e[4] == f && e[5]
        == g;
    proof {
        if r {
            assert(e@ =~= seq![a, b, c, d, f, g]);
        } else if e@ == seq![a, b, c, d, f, g] {
            assert(e@.len() == 6 && e@[0] == a && e@[1] == b && e@[2] == c && e@[3] == d && e@[4]
                == f && e@[5] == g);
        }
    }
    r
}

fn eq5(e: &Vec<char>, a: char, b: char, c: char, d: char, f: char) -> (r: bool)
    ensures
        r == (e@ == seq![a, b, c, d, f]),
{
    let r = e.len() == 5 && e[0] == a && e[1] == b && e[2] == c && e[3] == d && e[4] == f;
    proof {
        if r {
            assert(e@ =~= seq![a, b, c, d, f]);
        } else if e@ == seq![a, b, c, d, f] {
            assert(e@.len() == 5 && e@[0] == a && e@[1] == b && e@[2] == c && e@[3] == d && e@[4]
                == f);
        }
    }
    r
}

fn field_of_chars(name: &Vec<char>) -> (r: Field)
    ensures
        r == field_of_spec(name@),
{
    if eq6(name, 'a', 'r', 't', 'i', 's', 't') || eq6(name, 'a', 'u', 't', 'h', 'o', 'r') {
        Field::Artist
    } else if eq6(name, 's', 'e', 'r', 'i', 'e', 's') {
        Field::Series
    } else if eq5(name, 'i', 's', 's', 'u', 'e') {
        Field::Issue
    } else {
        Field::Discard
    }
}

/// The pieces of a literal segment, scanning placeholders from position `i`
/// with `last` the end of the last consumed text.  Text before each `{` is a
/// literal piece; a `{name}` becomes a capture; a `{` without a closing `}`
/// leaves `last` behind, so the closing literal repeats the tail text.
pub open spec fn parse_pieces(seg: Seq<char>, last: int, i: int) -> Seq<SpecPiece>
    decreases seg.len() - i,
    when 0 <= last && 0 <= i <= seg.len()
    via parse_pieces_dec
{
    let b = index_of_from(seg, '{', i);
    if b == -1 {
        if last < seg.len() {
            seq![SpecPiece::Lit(seg.subrange(last, seg.len() as int))]
        } else {
            Seq::<SpecPiece>::empty()
        }
    } else if b < last {
        parse_pieces(seg, last, b + 1)
    } else {
        let head: Seq<SpecPiece> = if b > last {
            seq![SpecPiece::Lit(seg.subrange(last, b))]
        } else {
            Seq::<SpecPiece>::empty()
        };
        let e = index_of_from(seg, '}', b);
        if e == -1 {
            head + parse_pieces(seg, last, b + 1)
        } else {
            head + seq![SpecPiece::Cap(field_of_spec(seg.subrange(b + 1, e)))] + parse_pieces(
                seg,
                e + 1,
                e + 1,
            )
        }
    }
}

#[via_fn]
proof fn parse_pieces_dec(seg: Seq<char>, last: int, i: int) {
    lemma_index_of_from(seg, '{', i);
    let b = index_of_from(seg, '{', i);
    if b >= 0 {
        lemma_index_of_from(seg, '}', b);
    }
}

fn parse_pieces_chars(seg: &Vec<char>, last: usize, i: usize) -> (r: Vec<Piece>)
    requires
        i <= seg.len(),
    ensures
        pieces_view(r@) == parse_pieces(seg@, last as int, i as int),
    decreases seg@.len() - i,
{
    let mut r: Vec<Piece> = Vec::new();
    match index_of_from_chars(seg, '{', i) {
        None => {
            if last < seg.len() {
                r.push(Piece::Lit(crate::paths::sub_chars(seg, last, seg.len())));
            }
            proof {
                assert(pieces_view(r@) =~= parse_pieces(seg@, last as int, i as int));
            }
        },
        Some(b) => {
            if b < last {
                let rest = parse_pieces_chars(seg, last, b + 1);
                proof {
                    assert(pieces_view(rest@) =~= parse_pieces(seg@, last as int, i as int));
                }
                return rest;
            }
            if b > last {
                r.push(Piece::Lit(crate::paths::sub_chars(seg, last, b)));
            }
            match index_of_from_chars(seg, '}', b) {
                None => {
                    let mut rest = parse_pieces_chars(seg, last, b + 1);
                    append_pieces(&mut r, &mut rest);
                    proof {
                        assert(pieces_view(r@) =~= parse_pieces(seg@, last as int, i as int));
                    }
                },
                Some(e) => {
                    proof {
                        lemma_index_of_from(seg@, '{', i as int);
                        lemma_index_of_from(seg@, '}', b as int);
                    }
                    let name = crate::paths::sub_chars(seg, b + 1, e);
                    r.push(Piece::Cap(field_of_chars(&name)));
                    let mut rest = parse_pieces_chars(seg, e + 1, e + 1);
                    append_pieces(&mut r, &mut rest);
                    proof {
                        assert(pieces_view(r@) =~= parse_pieces(seg@, last as int, i as int));
                    }
                },
            }
        },
    }
    r
}

fn append_pieces(r: &mut Vec<Piece>, rest: &mut Vec<Piece>)
    ensures
        final(r)@ == old(r)@ + old(rest)@,
{
    let ghost rest0 = rest@;
    let mut k: usize = 0;
    let rn = rest.len();
    while k < rn
        invariant
            k <= rn,
            rn == rest0.len(),
            rest@ == rest0.skip(k as int),
            r@ == old(r)@ + rest0.take(k as int),
        decreases rn - k,
    {
        let x = rest.remove(0);
        r.push(x);
        k = k + 1;
        proof {
            assert(r@ =~= old(r)@ + rest0.take(k as int));
        }
    }
    proof {
        assert(r@ =~= old(r)@ + rest0);
    }
}

/// The parsed form of a whole pattern: normalized, split on `/`, empty
/// segments dropped; `**` segments become the wildcard.
pub open spec fn parse_pattern_spec(pattern: Seq<char>) -> Seq<SpecSeg> {
    parse_segs(split_slash(normalize_seq(pattern)), 0)
}

/// The parsed segments of the split pattern from index `k` on.
pub open spec fn parse_segs(segs: Seq<Seq<char>>, k: int) -> Seq<SpecSeg>
    decreases segs.len() - k,
    when 0 <= k <= segs.len()
{
    if k >= segs.len() {
        Seq::<SpecSeg>::empty()
    } else {
        let s = segs[k];
        let rest = parse_segs(segs, k + 1);
        if s.len() == 0 {
            rest
        } else if s == seq!['*', '*'] {
            seq![SpecSeg::Any] + rest
        } else {
            seq![SpecSeg::Pieces(parse_pieces(s, 0, 0))] + rest
        }
    }
}

/// The compiled form of a pattern.
pub fn parse_pattern(pattern: &str) -> (r: Vec<PatSeg>)
    ensures
        segs_view(r@) == parse_pattern_spec(pattern@),
{
    let pv = chars_of(pattern);
    let nv = normalize_chars(&pv);
    let segs = split_slash_chars(&nv);
    let mut r: Vec<PatSeg> = Vec::new();
    let mut k: usize = segs.len();
    proof {
        assert(segs.deep_view().len() == segs@.len());
    }
    while k > 0
        invariant
            k <= segs@.len(),
            segs.deep_view() == split_slash(normalize_seq(pattern@)),
            segs.deep_view().len() == segs@.len(),
            segs_view(r@) == parse_segs(segs.deep_view(), k as int),
        decreases k,
    {
        k = k - 1;
        let s = &segs[k];
        proof {
            assert(segs.deep_view()[k as int] == segs@[k as int]@);
        }
        if s.len() == 0 {
        } else if s.len() == 2 && s[0] == '*' && s[1] == '*' {
            proof {
                assert(segs@[k as int]@ =~= seq!['*', '*']);
            }
            r.insert(0, PatSeg::Any);
            proof {
                assert(segs_view(r@) =~= parse_segs(segs.deep_view(), k as int));
            }
        } else {
            proof {
                if segs@[k as int]@ == seq!['*', '*'] {
                    assert(segs@[k as int]@.len() == 2 && segs@[k as int]@[0] == '*'
                        && segs@[k as int]@[1] == '*');
                }
            }
            let pieces = parse_pieces_chars(s, 0, 0);
            r.insert(0, PatSeg::Pieces(pieces));
            proof {
                assert(segs_view(r@) =~= parse_segs(segs.deep_view(), k as int));
            }
        }
    }
    r
}

/// An ordered list of captured fields and values.
pub open spec fn caps_view(c: Seq<(Field, Vec<char>)>) -> Seq<(Field, Seq<char>)> {
    c.map_values(|pr: (Field, Vec<char>)| (pr.0, pr.1@))
}

pub open spec fn caps_opt_view(r: Option<Vec<(Field, Vec<char>)>>) -> Option<
    Seq<(Field, Seq<char>)>,
> {
    match r {
        Some(c) => Some(caps_view(c@)),
        None => None,
    }
}

/// Matching the pieces of one segment against the path segment `s` from
/// piece `k` at position `p`: literals match exactly; a capture takes as few
/// characters as possible (at least one) such that the rest still matches.
pub open spec fn pieces_extract_at(pp: Seq<SpecPiece>, k: int, s: Seq<char>, p: int) -> Option<
    Seq<(Field, Seq<char>)>,
>
    decreases pp.len() - k, s.len() - p, 1int,
    when 0 <= k <= pp.len() && 0 <= p <= s.len()
{
    if k >= pp.len() {
        if p == s.len() {
            Some(Seq::<(Field, Seq<char>)>::empty())
        } else {
            None
        }
    } else {
        match pp[k] {
            SpecPiece::Lit(l) => {
                if p + l.len() <= s.len() && s.subrange(p, p + l.len()) == l {
                    pieces_extract_at(pp, k + 1, s, p + l.len())
                } else {
                    None
                }
            },
            SpecPiece::Cap(f) => cap_extract(pp, k, s, p, 1, f),
        }
    }
}

/// The non-greedy search for a capture's length, trying `t` and up.
pub open spec fn cap_extract(
    pp: Seq<SpecPiece>,
    k: int,
    s: Seq<char>,
    p: int,
    t: int,
    f: Field,
) -> Option<Seq<(Field, Seq<char>)>>
    decreases pp.len() - k, s.len() - p - t + 1, 0int,
    when 0 <= k < pp.len() && 0 <= p <= s.len() && 1 <= t
{
    if p + t > s.len() {
        None
    } else {
        match pieces_extract_at(pp, k + 1, s, p + t) {
            Some(caps) => Some(seq![(f, s.subrange(p, p + t))] + caps),
            None => cap_extract(pp, k, s, p, t + 1, f),
        }
    }
}

/// Matching a whole segment.
pub open spec fn pieces_extract(pp: Seq<SpecPiece>, s: Seq<char>) -> Option<
    Seq<(Field, Seq<char>)>,
> {
    pieces_extract_at(pp, 0, s, 0)
}

/// Matching the pattern segments against the path segments.  A pieced
/// segment consumes exactly one path segment; a final `**` consumes the
/// whole remainder; any other `**` consumes as many whole path segments as
/// possible such that the rest still matches.
pub open spec fn segs_extract(ps: Seq<SpecSeg>, ss: Seq<Seq<char>>) -> Option<
    Seq<(Field, Seq<char>)>,
>
    decreases ps.len(), ss.len() + 1,
{
    if ps.len() == 0 {
        if ss.len() == 0 {
            Some(Seq::<(Field, Seq<char>)>::empty())
        } else {
            None
        }
    } else {
        match ps[0] {
            SpecSeg::Pieces(pp) => {
                if ss.len() == 0 {
                    None
                } else {
                    match pieces_extract(pp, ss[0]) {
                        None => None,
                        Some(c0) => match segs_extract(ps.drop_first(), ss.drop_first()) {
                            None => None,
                            Some(cr) => Some(c0 + cr),
                        },
                    }
                }
            },
            SpecSeg::Any => {
                if ps.len() == 1 {
                    if ss.len() >= 1 {
                        Some(Seq::<(Field, Seq<char>)>::empty())
                    } else {
                        None
                    }
                } else {
                    any_extract(ps, ss, ss.len() - 1)
                }
            },
        }
    }
}

/// The greedy search for how many path segments a non-final `**` consumes,
/// trying `j` segments and down.
pub open spec fn any_extract(ps: Seq<SpecSeg>, ss: Seq<Seq<char>>, j: int) -> Option<
    Seq<(Field, Seq<char>)>,
>
    decreases ps.len(), j + 1,
    when ps.len() >= 1 && j < ss.len()
{
    if j < 0 {
        None
    } else {
        match segs_extract(ps.drop_first(), ss.skip(j)) {
            Some(caps) => Some(caps),
            None => any_extract(ps, ss, j - 1),
        }
    }
}

/// The extracted metadata: for each field, the value of its last capture.
pub struct SpecMetadata {
    pub artist: Option<Seq<char>>,
    pub series: Option<Seq<char>>,
    pub issue: Option<Seq<char>>,
}

pub open spec fn empty_metadata() -> SpecMetadata {
    SpecMetadata { artist: None, series: None, issue: None }
}

/// Folding an ordered capture list into metadata; a later capture of the
/// same field wins.
pub open spec fn metadata_of(caps: Seq<(Field, Seq<char>)>) -> SpecMetadata
    decreases caps.len(),
{
    if caps.len() == 0 {
        empty_metadata()
    } else {
        let m = metadata_of(caps.drop_last());
        let c = caps.last();
        match c.0 {
            Field::Artist => SpecMetadata { artist: Some(c.1), series: m.series, issue: m.issue },
            Field::Series => SpecMetadata { artist: m.artist, series: Some(c.1), issue: m.issue },
            Field::Issue => SpecMetadata { artist: m.artist, series: m.series, issue: Some(c.1) },
            Field::Discard => m,
        }
    }
}

/// What metadata extraction returns: the match of the whole relative path
/// against the whole pattern, or nothing.
pub open spec fn extract_spec(rel: Seq<char>, pattern: Seq<char>) -> Option<SpecMetadata> {
    let ps = parse_pattern_spec(pattern);
    if ps.len() == 0 {
        if rel.len() == 0 {
            Some(empty_metadata())
        } else {
            None
        }
    } else {
        match segs_extract(ps, split_slash(rel)) {
            None => None,
            Some(caps) => Some(metadata_of(caps)),
        }
    }
}

fn append_vec<T>(r: &mut Vec<T>, rest: Vec<T>)
    ensures
        final(r)@ == old(r)@ + rest@,
{
    let ghost rest0 = rest@;
    let mut rest = rest;
    let mut k: usize = 0;
    let rn = rest.len();
    while k < rn
        invariant
            k <= rn,
            rn == rest0.len(),
            rest@ == rest0.skip(k as int),
            r@ == old(r)@ + rest0.take(k as int),
        decreases rn - k,
    {
        let x = rest.remove(0);
        r.push(x);
        k = k + 1;
        proof {
            assert(r@ =~= old(r)@ + rest0.take(k as int));
        }
    }
    proof {
        assert(r@ =~= old(r)@ + rest0);
    }
}

fn pieces_extract_at_chars(pp: &Vec<Piece>, k: usize, s: &Vec<char>, p: usize) -> (r: Option<
    Vec<(Field, Vec<char>)>,
>)
    requires
        k <= pp.len(),
        p <= s.len(),
    ensures
        caps_opt_view(r) == pieces_extract_at(pieces_view(pp@), k as int, s@, p as int),
    decreases pp@.len() - k, s@.len() - p, 1int,
{
    let ghost pv = pieces_view(pp@);
    proof {
        if k < pp.len() {
            assert(pv[k as int] == piece_view(pp@[k as int]));
        }
    }
    if k == pp.len() {
        if p == s.len() {
            proof {
                assert(caps_view(Seq::<(Field, Vec<char>)>::empty()) =~= Seq::<
                    (Field, Seq<char>),
                >::empty());
            }
            Some(Vec::new())
        } else {
            None
        }
    } else {
        match &pp[k] {
            Piece::Lit(l) => {
                if l.len() <= s.len() - p {
                    let t = crate::paths::sub_chars(s, p, p + l.len());
                    if crate::paths::chars_eq(&t, l) {
                        pieces_extract_at_chars(pp, k + 1, s, p + l.len())
                    } else {
                        None
                    }
                } else {
                    None
                }
            },
            Piece::Cap(f) => cap_extract_chars(pp, k, s, p, 1, *f),
        }
    }
}

fn cap_extract_chars(pp: &Vec<Piece>, k: usize, s: &Vec<char>, p: usize, t: usize, f: Field) -> (r:
    Option<Vec<(Field, Vec<char>)>>)
    requires
        k < pp.len(),
        p <= s.len(),
        1 <= t,
        pieces_view(pp@)[k as int] is Cap,
    ensures
        caps_opt_view(r) == cap_extract(pieces_view(pp@), k as int, s@, p as int, t as int, f),
    decreases pp@.len() - k, s@.len() - p - t + 1, 0int,
{
    if t > s.len() - p {
        return None;
    }
    match pieces_extract_at_chars(pp, k + 1, s, p + t) {
        Some(caps) => {
            let cap = crate::paths::sub_chars(s, p, p + t);
            let mut out: Vec<(Field, Vec<char>)> = Vec::new();
            out.push((f, cap));
            let ghost out1 = out@;
            append_vec(&mut out, caps);
            proof {
                assert(caps_view(out@) =~= cap_extract(
                    pieces_view(pp@),
                    k as int,
                    s@,
                    p as int,
                    t as int,
                    f,
                )->Some_0);
            }
            Some(out)
        },
        None => {
            if t >= s.len() - p {
                proof {
                    assert(cap_extract(pieces_view(pp@), k as int, s@, p as int, t as int + 1, f)
                        is None);
                }
                return None;
            }
            cap_extract_chars(pp, k, s, p, t + 1, f)
        },
    }
}

#[verifier::loop_isolation(false)]
fn segs_extract_chars(ps: &Vec<PatSeg>, k: usize, ss: &Vec<Vec<char>>, m: usize) -> (r: Option<
    Vec<(Field, Vec<char>)>,
>)
    requires
        k <= ps.len(),
        m <= ss.len(),
    ensures
        caps_opt_view(r) == segs_extract(
            segs_view(ps@).skip(k as int),
            ss.deep_view().skip(m as int),
        ),
    decreases ps@.len() - k, ss@.len() - m + 1,
{
    let ghost pv = segs_view(ps@).skip(k as int);
    let ghost sv = ss.deep_view().skip(m as int);
    proof {
        assert(ss.deep_view().len() == ss@.len());
    }
    if k == ps.len() {
        if m == ss.len() {
            proof {
                assert(caps_view(Seq::<(Field, Vec<char>)>::empty()) =~= Seq::<
                    (Field, Seq<char>),
                >::empty());
            }
            return Some(Vec::new());
        }
        return None;
    }
    proof {
        assert(pv[0] == seg_view(ps@[k as int]));
        assert(pv.drop_first() =~= segs_view(ps@).skip(k as int + 1));
        if m < ss.len() {
            assert(sv[0] == ss.deep_view()[m as int]);
            assert(sv.drop_first() =~= ss.deep_view().skip(m as int + 1));
            assert(ss.deep_view()[m as int] == ss@[m as int]@);
        }
    }
    match &ps[k] {
        PatSeg::Pieces(pp) => {
            if m == ss.len() {
                return None;
            }
            match pieces_extract_at_chars(pp, 0, &ss[m], 0) {
                None => None,
                Some(c0) => {
                    match segs_extract_chars(ps, k + 1, ss, m + 1) {
                        None => None,
                        Some(cr) => {
                            let mut out = c0;
                            append_vec(&mut out, cr);
                            proof {
                                assert(caps_view(out@) =~= segs_extract(pv, sv)->Some_0);
                            }
                            Some(out)
                        },
                    }
                },
            }
        },
        PatSeg::Any => {
            if k == ps.len() - 1 {
                if m < ss.len() {
                    proof {
                        assert(caps_view(Seq::<(Field, Vec<char>)>::empty()) =~= Seq::<
                            (Field, Seq<char>),
                        >::empty());
                    }
                    return Some(Vec::new());
                }
                return None;
            }
            let mut i: usize = ss.len() - m;
            proof {
                assert(segs_extract(pv, sv) == any_extract(pv, sv, sv.len() - 1));
            }
            while i > 0
                invariant
                    i <= ss@.len() - m,
                    k < ps.len() - 1,
                    m <= ss.len(),
                    ss.deep_view().len() == ss@.len(),
                    pv == segs_view(ps@).skip(k as int),
                    sv == ss.deep_view().skip(m as int),
                    any_extract(pv, sv, sv.len() - 1) == any_extract(pv, sv, i - 1),
                decreases i,
            {
                let j = i - 1;
                proof {
                    assert(sv.skip(j as int) =~= ss.deep_view().skip(m + j));
                    assert(pv.drop_first() =~= segs_view(ps@).skip(k as int + 1));
                }
                let sub = segs_extract_chars(ps, k + 1, ss, m + j);
                match sub {
                    Some(caps) => {
                        proof {
                            assert(any_extract(pv, sv, j as int) == Some(caps_view(caps@)));
                        }
                        return Some(caps);
                    },
                    None => {
                        i = i - 1;
                    },
                }
            }
            None
        },
    }
}

/// What metadata extraction produced for one candidate: each field present
/// exactly when some placeholder for it matched.
pub struct PatternMetadata {
    pub artist: Option<String>,
    pub series: Option<String>,
    pub issue: Option<String>,
}

pub open spec fn opt_str_view(o: Option<String>) -> Option<Seq<char>> {
    match o {
        Some(s) => Some(s@),
        None => None,
    }
}

pub open spec fn metadata_view(m: PatternMetadata) -> SpecMetadata {
    SpecMetadata {
        artist: opt_str_view(m.artist),
        series: opt_str_view(m.series),
        issue: opt_str_view(m.issue),
    }
}

fn metadata_of_chars(caps: &Vec<(Field, Vec<char>)>) -> (r: PatternMetadata)
    ensures
        metadata_view(r) == metadata_of(caps_view(caps@)),
{
    let mut artist: Option<String> = None;
    let mut series: Option<String> = None;
    let mut issue: Option<String> = None;
    let mut i: usize = 0;
    proof {
        assert(caps_view(caps@.take(0)) =~= Seq::<(Field, Seq<char>)>::empty());
    }
    while i < caps.len()
        invariant
            i <= caps.len(),
            metadata_view(
                PatternMetadata { artist: artist, series: series, issue: issue },
            ) == metadata_of(caps_view(caps@.take(i as int))),
        decreases caps.len() - i,
    {
        let c = &caps[i];
        let value = string_of(&c.1);
        match c.0 {
            Field::Artist => {
                artist = Some(value);
            },
            Field::Series => {
                series = Some(value);
            },
            Field::Issue => {
                issue = Some(value);
            },
            Field::Discard => {},
        }
        i = i + 1;
        proof {
            let pre = caps_view(caps@.take(i - 1));
            let cur = caps_view(caps@.take(i as int));
            assert(cur.drop_last() =~= pre);
            assert(cur.last() == (caps@[i - 1].0, caps@[i - 1].1@));
        }
    }
    proof {
        assert(caps@.take(caps@.len() as int) =~= caps@);
    }
    PatternMetadata { artist, series, issue }
}

/// Extract metadata fields from a relative path using a placeholder
/// pattern; `None` means the path does not match the pattern and the
/// candidate is to be skipped, never an error.
pub fn extract_metadata(relative_path: &str, pattern: &str) -> (r: Option<PatternMetadata>)
    ensures
        match r {
            Some(m) => extract_spec(relative_path@, pattern@) == Some(metadata_view(m)),
            None => extract_spec(relative_path@, pattern@) is None,
        },
{
    let ps = parse_pattern(pattern);
    let rv = chars_of(relative_path);
    if ps.len() == 0 {
        if rv.len() == 0 {
            return Some(PatternMetadata { artist: None, series: None, issue: None });
        }
        return None;
    }
    let ss = split_slash_chars(&rv);
    proof {
        assert(segs_view(ps@).skip(0) =~= segs_view(ps@));
        assert(ss.deep_view().skip(0) =~= ss.deep_view());
    }
    match segs_extract_chars(&ps, 0, &ss, 0) {
        None => None,
        Some(caps) => Some(metadata_of_chars(&caps)),
    }
}

/// A segment in the simple form the round-trip law covers: a wildcard, a
/// whole-segment capture, or a nonempty literal.
pub open spec fn simple_seg(g: SpecSeg) -> bool {
    match g {
        SpecSeg::Any => true,
        SpecSeg::Pieces(pp) => pp.len() == 1 && (match pp[0] {
            SpecPiece::Cap(_) => true,
            SpecPiece::Lit(l) => l.len() >= 1,
        }),
    }
}

pub open spec fn simple_pattern(ps: Seq<SpecSeg>) -> bool {
    forall|i: int| 0 <= i < ps.len() ==> simple_seg(#[trigger] ps[i])
}

/// How many wildcard segments the pattern holds.
pub open spec fn any_count(ps: Seq<SpecSeg>) -> nat
    decreases ps.len(),
{
    if ps.len() == 0 {
        0
    } else {
        (if ps[0] is Any {
            1nat
        } else {
            0nat
        }) + any_count(ps.drop_first())
    }
}

/// How many capture segments the pattern holds.
pub open spec fn cap_count(ps: Seq<SpecSeg>) -> nat
    decreases ps.len(),
{
    if ps.len() == 0 {
        0
    } else {
        (match ps[0] {
            SpecSeg::Pieces(pp) => if pp.len() == 1 && pp[0] is Cap {
                1nat
            } else {
                0nat
            },
            SpecSeg::Any => 0nat,
        }) + cap_count(ps.drop_first())
    }
}

/// The path segments obtained by substituting capture values and wildcard
/// segments into a simple pattern.
pub open spec fn subst_segs(ps: Seq<SpecSeg>, vals: Seq<Seq<char>>, fill: Seq<Seq<char>>) -> Seq<
    Seq<char>,
>
    decreases ps.len(),
{
    if ps.len() == 0 {
        Seq::<Seq<char>>::empty()
    } else {
        match ps[0] {
            SpecSeg::Any => fill + subst_segs(ps.drop_first(), vals, fill),
            SpecSeg::Pieces(pp) => {
                if pp.len() == 1 && pp[0] is Cap {
                    seq![vals[0]] + subst_segs(ps.drop_first(), vals.drop_first(), fill)
                } else {
                    seq![pp[0]->Lit_0] + subst_segs(ps.drop_first(), vals, fill)
                }
            },
        }
    }
}

/// The captures the substituted path should yield back: each capture
/// segment's field with the value that was substituted into it.
pub open spec fn expected_caps(ps: Seq<SpecSeg>, vals: Seq<Seq<char>>) -> Seq<(Field, Seq<char>)>
    decreases ps.len(),
{
    if ps.len() == 0 {
        Seq::<(Field, Seq<char>)>::empty()
    } else {
        match ps[0] {
            SpecSeg::Any => expected_caps(ps.drop_first(), vals),
            SpecSeg::Pieces(pp) => {
                if pp.len() == 1 && pp[0] is Cap {
                    seq![(pp[0]->Cap_0, vals[0])] + expected_caps(ps.drop_first(), vals.drop_first())
                } else {
                    expected_caps(ps.drop_first(), vals)
                }
            },
        }
    }
}

/// A whole-segment capture takes the whole segment.
proof fn lemma_cap_whole(pp: Seq<SpecPiece>, f: Field, s: Seq<char>, t: int)
    requires
        pp.len() == 1,
        pp[0] == SpecPiece::Cap(f),
        1 <= t <= s.len(),
    ensures
        cap_extract(pp, 0, s, 0, t, f) == Some(seq![(f, s)]),
    decreases s.len() - t,
{
    if t == s.len() {
        assert(pieces_extract_at(pp, 1, s, t) == Some(Seq::<(Field, Seq<char>)>::empty()));
        assert(s.subrange(0, t) =~= s);
        assert(seq![(f, s)] + Seq::<(Field, Seq<char>)>::empty() =~= seq![(f, s)]);
    } else {
        assert(pieces_extract_at(pp, 1, s, t) is None);
        lemma_cap_whole(pp, f, s, t + 1);
    }
}

/// A whole-segment capture matches exactly the nonempty segments,
/// yielding the segment itself.
proof fn lemma_pieces_cap(pp: Seq<SpecPiece>, f: Field, s: Seq<char>)
    requires
        pp.len() == 1,
        pp[0] == SpecPiece::Cap(f),
        s.len() >= 1,
    ensures
        pieces_extract(pp, s) == Some(seq![(f, s)]),
{
    lemma_cap_whole(pp, f, s, 1);
}

/// A literal segment matches exactly itself, yielding no captures.
proof fn lemma_pieces_lit(pp: Seq<SpecPiece>, l: Seq<char>, s: Seq<char>)
    requires
        pp.len() == 1,
        pp[0] == SpecPiece::Lit(l),
    ensures
        pieces_extract(pp, s) == (if s == l {
            Some(Seq::<(Field, Seq<char>)>::empty())
        } else {
            None::<Seq<(Field, Seq<char>)>>
        }),
{
    if l.len() <= s.len() && s.subrange(0, l.len() as int) == l {
        assert(pieces_extract_at(pp, 1, s, l.len() as int) == (if l.len() == s.len() {
            Some(Seq::<(Field, Seq<char>)>::empty())
        } else {
            None::<Seq<(Field, Seq<char>)>>
        }));
        if l.len() == s.len() {
            assert(s.subrange(0, l.len() as int) =~= s);
        } else {
            assert(s != l);
        }
    } else {
        assert(s != l) by {
            if s == l {
                assert(s.subrange(0, l.len() as int) =~= l);
            }
        }
    }
}

/// A wildcard-free simple pattern consumes exactly one path segment per
/// pattern segment: any other count fails.
proof fn lemma_no_any_length(ps: Seq<SpecSeg>, ss: Seq<Seq<char>>)
    requires
        simple_pattern(ps),
        any_count(ps) == 0,
        ss.len() != ps.len(),
    ensures
        segs_extract(ps, ss) is None,
    decreases ps.len(),
{
    if ps.len() == 0 {
    } else {
        assert(simple_seg(ps[0]));
        assert(!(ps[0] is Any));
        if ss.len() > 0 {
            let pp = ps[0]->Pieces_0;
            match pieces_extract(pp, ss[0]) {
                None => {},
                Some(c0) => {
                    assert(simple_pattern(ps.drop_first())) by {
                        assert(forall|i: int|
                            0 <= i < ps.drop_first().len() ==> #[trigger] ps.drop_first()[i]
                                == ps[i + 1]);
                    }
                    lemma_no_any_length(ps.drop_first(), ss.drop_first());
                },
            }
        }
    }
}

/// The substituted path of a wildcard-free pattern has one segment per
/// pattern segment.
proof fn lemma_subst_len(ps: Seq<SpecSeg>, vals: Seq<Seq<char>>, fill: Seq<Seq<char>>)
    requires
        any_count(ps) == 0,
    ensures
        subst_segs(ps, vals, fill).len() == ps.len(),
    decreases ps.len(),
{
    if ps.len() > 0 {
        assert(!(ps[0] is Any));
        match ps[0] {
            SpecSeg::Pieces(pp) => {
                if pp.len() == 1 && pp[0] is Cap {
                    lemma_subst_len(ps.drop_first(), vals.drop_first(), fill);
                } else {
                    lemma_subst_len(ps.drop_first(), vals, fill);
                }
            },
            SpecSeg::Any => {},
        }
    }
}

/// The greedy wildcard search lands on the first position, from the
/// right, whose remainder matches.
proof fn lemma_any_down(ps: Seq<SpecSeg>, ss: Seq<Seq<char>>, jstar: int, j: int)
    requires
        ps.len() >= 1,
        0 <= jstar <= j < ss.len(),
        forall|t: int| jstar < t <= j ==> segs_extract(ps.drop_first(), ss.skip(t)) is None,
        segs_extract(ps.drop_first(), ss.skip(jstar)) is Some,
    ensures
        any_extract(ps, ss, j) == segs_extract(ps.drop_first(), ss.skip(jstar)),
    decreases j - jstar,
{
    if j == jstar {
    } else {
        assert(segs_extract(ps.drop_first(), ss.skip(j)) is None);
        lemma_any_down(ps, ss, jstar, j - 1);
    }
}

/// Law: substituting concrete nonempty values into a simple pattern's
/// captures (and whole path segments into its single wildcard, at least
/// one when the wildcard ends the pattern) and matching the substituted
/// path against the same pattern yields back exactly those values, in
/// order.
pub proof fn lemma_pattern_round_trip(ps: Seq<SpecSeg>, vals: Seq<Seq<char>>, fill: Seq<Seq<char>>)
    requires
        simple_pattern(ps),
        any_count(ps) <= 1,
        vals.len() == cap_count(ps),
        forall|i: int| 0 <= i < vals.len() ==> (#[trigger] vals[i]).len() >= 1,
        ps.len() > 0 && ps.last() is Any ==> fill.len() >= 1,
    ensures
        segs_extract(ps, subst_segs(ps, vals, fill)) == Some(expected_caps(ps, vals)),
    decreases ps.len(),
{
    let ss = subst_segs(ps, vals, fill);
    if ps.len() == 0 {
        assert(ss =~= Seq::<Seq<char>>::empty());
        assert(expected_caps(ps, vals) =~= Seq::<(Field, Seq<char>)>::empty());
    } else {
        let tail = ps.drop_first();
        assert(forall|i: int| 0 <= i < tail.len() ==> #[trigger] tail[i] == ps[i + 1]);
        assert(simple_pattern(tail));
        assert(any_count(ps) == (if ps[0] is Any {
            1nat
        } else {
            0nat
        }) + any_count(tail));
        assert(tail.len() > 0 ==> tail.last() == ps.last());
        match ps[0] {
            SpecSeg::Pieces(pp) => {
                assert(simple_seg(ps[0]));
                if pp.len() == 1 && pp[0] is Cap {
                    let f = pp[0]->Cap_0;
                    let rest = subst_segs(tail, vals.drop_first(), fill);
                    assert(ss == seq![vals[0]] + rest);
                    assert(ss[0] == vals[0]);
                    assert(vals[0].len() >= 1);
                    lemma_pieces_cap(pp, f, vals[0]);
                    assert(forall|i: int|
                        0 <= i < vals.drop_first().len() ==> (#[trigger] vals.drop_first()[
                        i]).len() >= 1) by {
                        assert(forall|i: int|
                            0 <= i < vals.len() - 1 ==> vals.drop_first()[i] == vals[i + 1]);
                    }
                    lemma_pattern_round_trip(tail, vals.drop_first(), fill);
                    assert(ss.drop_first() =~= rest);
                    assert(seq![(f, vals[0])] + expected_caps(tail, vals.drop_first())
                        =~= expected_caps(ps, vals));
                } else {
                    let l = pp[0]->Lit_0;
                    let rest = subst_segs(tail, vals, fill);
                    assert(ss == seq![l] + rest);
                    assert(ss[0] == l);
                    lemma_pieces_lit(pp, l, l);
                    lemma_pattern_round_trip(tail, vals, fill);
                    assert(ss.drop_first() =~= rest);
                    assert(Seq::<(Field, Seq<char>)>::empty() + expected_caps(tail, vals)
                        =~= expected_caps(ps, vals));
                }
            },
            SpecSeg::Any => {
                assert(vals.len() == cap_count(tail));
                if ps.len() == 1 {
                    assert(ps.last() is Any);
                    assert(tail.len() == 0);
                    assert(subst_segs(tail, vals, fill) =~= Seq::<Seq<char>>::empty());
                    assert(ss =~= fill);
                    assert(ss.len() >= 1);
                    assert(expected_caps(ps, vals) == expected_caps(tail, vals));
                    assert(expected_caps(tail, vals) =~= Seq::<(Field, Seq<char>)>::empty());
                } else {
                    assert(any_count(tail) == 0);
                    let rest = subst_segs(tail, vals, fill);
                    assert(ss == fill + rest);
                    lemma_subst_len(tail, vals, fill);
                    assert(rest.len() == tail.len());
                    assert(tail.len() >= 1);
                    lemma_pattern_round_trip(tail, vals, fill);
                    assert(ss.skip(fill.len() as int) =~= rest);
                    let jstar = fill.len() as int;
                    assert forall|t: int| jstar < t <= ss.len() - 1 implies segs_extract(
                        tail,
                        ss.skip(t),
                    ) is None by {
                        assert(ss.skip(t).len() == ss.len() - t);
                        assert(ss.len() == fill.len() + tail.len());
                        lemma_no_any_length(tail, ss.skip(t));
                    }
                    assert(segs_extract(tail, ss.skip(jstar)) == Some(expected_caps(tail, vals)));
                    lemma_any_down(ps, ss, jstar, ss.len() - 1);
                    assert(segs_extract(ps, ss) == any_extract(ps, ss, ss.len() - 1));
                    assert(expected_caps(ps, vals) == expected_caps(tail, vals));
                }
            },
        }
    }
}

/// The path string whose segments are `ss`, separated by `/`.
pub open spec fn join_slash(ss: Seq<Seq<char>>) -> Seq<char>
    decreases ss.len(),
{
    if ss.len() == 0 {
        Seq::<char>::empty()
    } else if ss.len() == 1 {
        ss[0]
    } else {
        ss[0] + seq!['/'] + join_slash(ss.drop_first())
    }
}

/// The literal text of a simple literal segment (empty otherwise).
pub open spec fn lit_of(g: SpecSeg) -> Seq<char> {
    match g {
        SpecSeg::Pieces(pp) => {
            if pp.len() == 1 {
                match pp[0] {
                    SpecPiece::Lit(l) => l,
                    SpecPiece::Cap(_) => Seq::<char>::empty(),
                }
            } else {
                Seq::<char>::empty()
            }
        },
        SpecSeg::Any => Seq::<char>::empty(),
    }
}

/// No literal segment of the pattern holds a slash.
pub open spec fn lits_slash_free(ps: Seq<SpecSeg>) -> bool {
    forall|i: int, j: int|
        0 <= i < ps.len() && 0 <= j < lit_of(ps[i]).len() ==> (#[trigger] lit_of(ps[i])[j]) != '/'
}

proof fn lemma_index_of_from_at(s: Seq<char>, c: char, i: int, p: int)
    requires
        0 <= i <= p < s.len(),
        s[p] == c,
        forall|k: int| i <= k < p ==> s[k] != c,
    ensures
        index_of_from(s, c, i) == p,
    decreases p - i,
{
    if i < p {
        lemma_index_of_from_at(s, c, i + 1, p);
    }
}

proof fn lemma_index_shift(s: Seq<char>, c: char, base: int, i: int)
    requires
        0 <= base <= i <= s.len(),
    ensures
        index_of_from(s, c, i) == -1 ==> index_of_from(s.skip(base), c, i - base) == -1,
        index_of_from(s, c, i) >= 0 ==> index_of_from(s.skip(base), c, i - base) == index_of_from(
            s,
            c,
            i,
        ) - base,
    decreases s.len() - i,
{
    assert(s.skip(base).len() == s.len() - base);
    if i < s.len() {
        assert(s.skip(base)[i - base] == s[i]);
        if s[i] != c {
            lemma_index_shift(s, c, base, i + 1);
        }
    }
}

proof fn lemma_split_shift(s: Seq<char>, base: int, i: int)
    requires
        0 <= base <= i <= s.len(),
    ensures
        split_from(s, i) == split_from(s.skip(base), i - base),
    decreases s.len() - i,
{
    lemma_index_of_from(s, '/', i);
    lemma_index_shift(s, '/', base, i);
    let j = index_of_from(s, '/', i);
    let t = s.skip(base);
    if j == -1 {
        assert(s.subrange(i, s.len() as int) =~= t.subrange(i - base, t.len() as int));
        assert(split_from(s, i) =~= split_from(t, i - base));
    } else {
        assert(index_of_from(t, '/', i - base) == j - base);
        assert(s.subrange(i, j) =~= t.subrange(i - base, j - base));
        lemma_split_shift(s, base, j + 1);
        assert(split_from(s, i) =~= split_from(t, i - base));
    }
}

/// Splitting the joined form of slash-free segments yields the segments
/// back.
pub proof fn lemma_split_join(ss: Seq<Seq<char>>)
    requires
        ss.len() >= 1,
        forall|k: int, j: int|
            0 <= k < ss.len() && 0 <= j < ss[k].len() ==> (#[trigger] ss[k][j]) != '/',
    ensures
        split_slash(join_slash(ss)) == ss,
    decreases ss.len(),
{
    let s = join_slash(ss);
    if ss.len() == 1 {
        assert(s == ss[0]);
        lemma_index_of_from(s, '/', 0);
        if index_of_from(s, '/', 0) >= 0 {
            assert(s[index_of_from(s, '/', 0)] != '/');
        }
        assert(s.subrange(0, s.len() as int) =~= ss[0]);
        assert(split_slash(s) =~= ss);
    } else {
        let rest = ss.drop_first();
        assert(forall|k: int| 0 <= k < rest.len() ==> #[trigger] rest[k] == ss[k + 1]);
        let head = ss[0];
        let p = head.len() as int;
        assert(s == head + seq!['/'] + join_slash(rest));
        assert(s[p] == '/');
        assert(forall|k: int| 0 <= k < p ==> s[k] == head[k] && s[k] != '/');
        lemma_index_of_from_at(s, '/', 0, p);
        assert(s.subrange(0, p) =~= head);
        lemma_split_shift(s, p + 1, p + 1);
        assert(s.skip(p + 1) =~= join_slash(rest));
        lemma_split_join(rest);
        assert(split_slash(s) == seq![head] + split_from(s, p + 1));
        assert(split_from(s, p + 1) == split_slash(join_slash(rest)));
        assert(seq![head] + rest =~= ss);
    }
}

proof fn lemma_subst_nonempty(ps: Seq<SpecSeg>, vals: Seq<Seq<char>>, fill: Seq<Seq<char>>)
    requires
        ps.len() >= 1,
        simple_pattern(ps),
        any_count(ps) <= 1,
        ps.last() is Any ==> fill.len() >= 1,
    ensures
        subst_segs(ps, vals, fill).len() >= 1,
{
    let tail = ps.drop_first();
    assert(forall|i: int| 0 <= i < tail.len() ==> #[trigger] tail[i] == ps[i + 1]);
    match ps[0] {
        SpecSeg::Pieces(_) => {},
        SpecSeg::Any => {
            if ps.len() == 1 {
                assert(subst_segs(tail, vals, fill) =~= Seq::<Seq<char>>::empty());
                assert(subst_segs(ps, vals, fill) =~= fill);
            } else {
                assert(any_count(tail) == 0);
                lemma_subst_len(tail, vals, fill);
            }
        },
    }
}

proof fn lemma_subst_slash_free(ps: Seq<SpecSeg>, vals: Seq<Seq<char>>, fill: Seq<Seq<char>>)
    requires
        cap_count(ps) <= vals.len(),
        forall|i: int, j: int|
            0 <= i < vals.len() && 0 <= j < vals[i].len() ==> (#[trigger] vals[i][j]) != '/',
        forall|i: int, j: int|
            0 <= i < fill.len() && 0 <= j < fill[i].len() ==> (#[trigger] fill[i][j]) != '/',
        lits_slash_free(ps),
        simple_pattern(ps),
    ensures
        forall|k: int, j: int|
            0 <= k < subst_segs(ps, vals, fill).len() && 0 <= j < subst_segs(ps, vals, fill)[k].len()
                ==> (#[trigger] subst_segs(ps, vals, fill)[k][j]) != '/',
    decreases ps.len(),
{
    let ss = subst_segs(ps, vals, fill);
    if ps.len() == 0 {
    } else {
        let tail = ps.drop_first();
        assert(forall|i: int| 0 <= i < tail.len() ==> #[trigger] tail[i] == ps[i + 1]);
        assert(simple_pattern(tail));
        assert(lits_slash_free(tail)) by {
            assert forall|i: int, j: int|
                0 <= i < tail.len() && 0 <= j < lit_of(tail[i]).len() implies (#[trigger] lit_of(
                tail[i],
            )[j]) != '/' by {
                assert(tail[i] == ps[i + 1]);
            }
        }
        match ps[0] {
            SpecSeg::Any => {
                lemma_subst_slash_free(tail, vals, fill);
                let rest = subst_segs(tail, vals, fill);
                assert forall|k: int, j: int|
                    0 <= k < ss.len() && 0 <= j < ss[k].len() implies (#[trigger] ss[k][j])
                    != '/' by {
                    if k < fill.len() {
                        assert(ss[k] == fill[k]);
                    } else {
                        assert(ss[k] == rest[k - fill.len()]);
                    }
                }
            },
            SpecSeg::Pieces(pp) => {
                assert(simple_seg(ps[0]));
                if pp.len() == 1 && pp[0] is Cap {
                    assert(vals.len() >= 1);
                    assert forall|i: int, j: int|
                        0 <= i < vals.drop_first().len() && 0 <= j < vals.drop_first()[i].len() implies (
                    #[trigger] vals.drop_first()[i][j]) != '/' by {
                        assert(vals.drop_first()[i] == vals[i + 1]);
                        assert(vals[i + 1][j] != '/');
                    }
                    lemma_subst_slash_free(tail, vals.drop_first(), fill);
                    let rest = subst_segs(tail, vals.drop_first(), fill);
                    assert forall|k: int, j: int|
                        0 <= k < ss.len() && 0 <= j < ss[k].len() implies (#[trigger] ss[k][j])
                        != '/' by {
                        if k == 0 {
                            assert(ss[0] == vals[0]);
                            if vals.len() > 0 {
                                assert(vals[0][j] != '/');
                            }
                        } else {
                            assert(ss[k] == rest[k - 1]);
                        }
                    }
                } else {
                    let l = pp[0]->Lit_0;
                    lemma_subst_slash_free(tail, vals, fill);
                    let rest = subst_segs(tail, vals, fill);
                    assert forall|k: int, j: int|
                        0 <= k < ss.len() && 0 <= j < ss[k].len() implies (#[trigger] ss[k][j])
                        != '/' by {
                        if k == 0 {
                            assert(ss[0] == l);
                            assert(lit_of(ps[0]) == l);
                            assert(l[j] != '/');
                        } else {
                            assert(ss[k] == rest[k - 1]);
                        }
                    }
                }
            },
        }
    }
}

/// Law: the relative path written by substituting concrete slash-free
/// values into a simple pattern, matched against that same pattern,
/// yields back exactly those values.
pub proof fn lemma_pattern_path_round_trip(
    ps: Seq<SpecSeg>,
    vals: Seq<Seq<char>>,
    fill: Seq<Seq<char>>,
)
    requires
        ps.len() >= 1,
        simple_pattern(ps),
        any_count(ps) <= 1,
        vals.len() == cap_count(ps),
        forall|i: int| 0 <= i < vals.len() ==> (#[trigger] vals[i]).len() >= 1,
        forall|i: int, j: int|
            0 <= i < vals.len() && 0 <= j < vals[i].len() ==> (#[trigger] vals[i][j]) != '/',
        forall|i: int, j: int|
            0 <= i < fill.len() && 0 <= j < fill[i].len() ==> (#[trigger] fill[i][j]) != '/',
        lits_slash_free(ps),
        ps.last() is Any ==> fill.len() >= 1,
    ensures
        segs_extract(ps, split_slash(join_slash(subst_segs(ps, vals, fill)))) == Some(
            expected_caps(ps, vals),
        ),
{
    lemma_subst_nonempty(ps, vals, fill);
    lemma_subst_slash_free(ps, vals, fill);
    lemma_split_join(subst_segs(ps, vals, fill));
    lemma_pattern_round_trip(ps, vals, fill);
}

} // verus!
