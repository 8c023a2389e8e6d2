//! The cache codec: a versioned, explicit binary schema for a baseline, so a
//! later run can reload the indexer's output instead of re-parsing and
//! re-indexing. Every integer becomes one little-endian 64-bit word; a string
//! is its length followed by one word per character; each list is its length
//! followed by its elements in order.
use crate::levels::{distinct_keys, lkey, LevelMap};
use crate::model::{wf_baseline, BaselineV, ContribV, PreV, ProjV};
use crate::score::{Baseline, Contributor, PreComputed, Project};
use crate::table::{distinct, names_of};
use vstd::bytes::{spec_u64_from_le_bytes, spec_u64_to_le_bytes};
use vstd::prelude::*;
use vstd::string::StrSliceExecFns;

verus! {

/// The format version this engine writes and accepts.
pub const CACHE_VERSION: u64 = 1;

// ---------------------------------------------------------------------------
// Word-level encoding
// ---------------------------------------------------------------------------
pub open spec fn enc_string(s: Seq<char>) -> Seq<u64> {
    seq![s.len() as u64] + s.map_values(|c: char| c as u64)
}

pub open spec fn enc_strings(t: Seq<Seq<char>>) -> Seq<u64>
    decreases t.len(),
{
    if t.len() == 0 {
        Seq::empty()
    } else {
        enc_string(t.first()) + enc_strings(t.drop_first())
    }
}

pub open spec fn enc_triples(s: Seq<(usize, usize, usize)>) -> Seq<u64>
    decreases s.len(),
{
    if s.len() == 0 {
        Seq::empty()
    } else {
        seq![s.first().0 as u64, s.first().1 as u64, s.first().2 as u64] + enc_triples(
            s.drop_first(),
        )
    }
}

pub open spec fn enc_pairs(s: Seq<(usize, usize)>) -> Seq<u64>
    decreases s.len(),
{
    if s.len() == 0 {
        Seq::empty()
    } else {
        seq![s.first().0 as u64, s.first().1 as u64] + enc_pairs(s.drop_first())
    }
}

pub open spec fn enc_contrib(c: ContribV) -> Seq<u64> {
    enc_string(c.name) + seq![c.skills.len() as u64] + c.skills.map_values(|x: usize| x as u64)
        + seq![c.next_availability as u64]
}

pub open spec fn enc_contribs(cs: Seq<ContribV>) -> Seq<u64>
    decreases cs.len(),
{
    if cs.len() == 0 {
        Seq::empty()
    } else {
        enc_contrib(cs.first()) + enc_contribs(cs.drop_first())
    }
}

pub open spec fn enc_proj(p: ProjV) -> Seq<u64> {
    enc_string(p.name) + seq![p.roles.len() as u64] + enc_pairs(p.roles) + seq![
        p.days_to_completion as u64,
        p.score as u64,
        p.best_before as u64,
    ]
}

pub open spec fn enc_projs(ps: Seq<ProjV>) -> Seq<u64>
    decreases ps.len(),
{
    if ps.len() == 0 {
        Seq::empty()
    } else {
        enc_proj(ps.first()) + enc_projs(ps.drop_first())
    }
}

/// The whole word image of a baseline.
pub open spec fn enc_baseline_words(b: BaselineV) -> Seq<u64> {
    seq![CACHE_VERSION] + seq![b.pre.contributors_id.len() as u64] + enc_strings(
        b.pre.contributors_id,
    ) + seq![b.pre.projects_id.len() as u64] + enc_strings(b.pre.projects_id) + seq![
        b.pre.skills_id.len() as u64,
    ] + enc_strings(b.pre.skills_id) + seq![b.pre.levels.len() as u64] + enc_triples(b.pre.levels)
        + seq![b.contributors.len() as u64] + enc_contribs(b.contributors) + seq![
        b.projects.len() as u64,
    ] + enc_projs(b.projects)
}

/// Every list and string of the baseline has a machine-representable length,
/// so that the length words are faithful.
pub open spec fn enc_bounded(b: BaselineV) -> bool {
    &&& b.pre.contributors_id.len() <= usize::MAX
    &&& b.pre.projects_id.len() <= usize::MAX
    &&& b.pre.skills_id.len() <= usize::MAX
    &&& b.pre.levels.len() <= usize::MAX
    &&& b.contributors.len() <= usize::MAX
    &&& b.projects.len() <= usize::MAX
    &&& forall|i: int|
        0 <= i < b.pre.contributors_id.len() ==> (#[trigger] b.pre.contributors_id[i]).len()
            <= usize::MAX
    &&& forall|i: int|
        0 <= i < b.pre.projects_id.len() ==> (#[trigger] b.pre.projects_id[i]).len() <= usize::MAX
    &&& forall|i: int|
        0 <= i < b.pre.skills_id.len() ==> (#[trigger] b.pre.skills_id[i]).len() <= usize::MAX
    &&& forall|i: int|
        0 <= i < b.contributors.len() ==> {
            let c = #[trigger] b.contributors[i];
            c.name.len() <= usize::MAX && c.skills.len() <= usize::MAX
        }
    &&& forall|i: int|
        0 <= i < b.projects.len() ==> {
            let p = #[trigger] b.projects[i];
            p.name.len() <= usize::MAX && p.roles.len() <= usize::MAX
        }
}

// ---------------------------------------------------------------------------
// Word-level decoding: each parser consumes a prefix and returns the rest.
// ---------------------------------------------------------------------------
pub open spec fn dec_word(s: Seq<u64>) -> Option<(u64, Seq<u64>)> {
    if s.len() > 0 {
        Some((s.first(), s.drop_first()))
    } else {
        None
    }
}

pub open spec fn dec_usize(s: Seq<u64>) -> Option<(usize, Seq<u64>)> {
    match dec_word(s) {
        Some((w, r)) => if w <= usize::MAX as u64 {
            Some((w as usize, r))
        } else {
            None
        },
        None => None,
    }
}

/// A word that is a valid Unicode scalar value.
pub open spec fn valid_scalar_word(w: u64) -> bool {
    w < 0xD800 || (0xE000 <= w && w <= 0x10FFFF)
}

/// The character with scalar value `w`; meaningful when `w` is valid.
pub open spec fn char_of_word(w: u64) -> char {
    choose|c: char| (#[trigger] (c as u64)) == w
}

pub open spec fn dec_char(s: Seq<u64>) -> Option<(char, Seq<u64>)> {
    match dec_word(s) {
        Some((w, r)) => if valid_scalar_word(w) {
            Some((char_of_word(w), r))
        } else {
            None
        },
        None => None,
    }
}

pub open spec fn dec_chars(s: Seq<u64>, n: int) -> Option<(Seq<char>, Seq<u64>)>
    decreases n,
{
    if n <= 0 {
        Some((Seq::empty(), s))
    } else {
        match dec_char(s) {
            Some((c, r)) => match dec_chars(r, n - 1) {
                Some((cs, r2)) => Some((seq![c] + cs, r2)),
                None => None,
            },
            None => None,
        }
    }
}

pub open spec fn dec_string(s: Seq<u64>) -> Option<(Seq<char>, Seq<u64>)> {
    match dec_usize(s) {
        Some((n, r)) => dec_chars(r, n as int),
        None => None,
    }
}

pub open spec fn dec_strings(s: Seq<u64>, n: int) -> Option<(Seq<Seq<char>>, Seq<u64>)>
    decreases n,
{
    if n <= 0 {
        Some((Seq::empty(), s))
    } else {
        match dec_string(s) {
            Some((x, r)) => match dec_strings(r, n - 1) {
                Some((xs, r2)) => Some((seq![x] + xs, r2)),
                None => None,
            },
            None => None,
        }
    }
}

pub open spec fn dec_triple(s: Seq<u64>) -> Option<((usize, usize, usize), Seq<u64>)> {
    match dec_usize(s) {
        Some((a, r1)) => match dec_usize(r1) {
            Some((b, r2)) => match dec_usize(r2) {
                Some((c, r3)) => Some(((a, b, c), r3)),
                None => None,
            },
            None => None,
        },
        None => None,
    }
}

pub open spec fn dec_triples(s: Seq<u64>, n: int) -> Option<(Seq<(usize, usize, usize)>, Seq<u64>)>
    decreases n,
{
    if n <= 0 {
        Some((Seq::empty(), s))
    } else {
        match dec_triple(s) {
            Some((x, r)) => match dec_triples(r, n - 1) {
                Some((xs, r2)) => Some((seq![x] + xs, r2)),
                None => None,
            },
            None => None,
        }
    }
}

pub open spec fn dec_pair(s: Seq<u64>) -> Option<((usize, usize), Seq<u64>)> {
    match dec_usize(s) {
        Some((a, r1)) => match dec_usize(r1) {
            Some((b, r2)) => Some(((a, b), r2)),
            None => None,
        },
        None => None,
    }
}

pub open spec fn dec_pairs(s: Seq<u64>, n: int) -> Option<(Seq<(usize, usize)>, Seq<u64>)>
    decreases n,
{
    if n <= 0 {
        Some((Seq::empty(), s))
    } else {
        match dec_pair(s) {
            Some((x, r)) => match dec_pairs(r, n - 1) {
                Some((xs, r2)) => Some((seq![x] + xs, r2)),
                None => None,
            },
            None => None,
        }
    }
}

pub open spec fn dec_usizes(s: Seq<u64>, n: int) -> Option<(Seq<usize>, Seq<u64>)>
    decreases n,
{
    if n <= 0 {
        Some((Seq::empty(), s))
    } else {
        match dec_usize(s) {
            Some((x, r)) => match dec_usizes(r, n - 1) {
                Some((xs, r2)) => Some((seq![x] + xs, r2)),
                None => None,
            },
            None => None,
        }
    }
}

pub open spec fn dec_contrib(s: Seq<u64>, idx: int) -> Option<(ContribV, Seq<u64>)> {
    match dec_string(s) {
        Some((name, r1)) => match dec_usize(r1) {
            Some((n, r2)) => match dec_usizes(r2, n as int) {
                Some((skills, r3)) => match dec_usize(r3) {
                    Some((avail, r4)) => Some(
                        (
                            ContribV {
                                id: idx as usize,
                                name,
                                skills,
                                next_availability: avail,
                            },
                            r4,
                        ),
                    ),
                    None => None,
                },
                None => None,
            },
            None => None,
        },
        None => None,
    }
}

pub open spec fn dec_contribs(s: Seq<u64>, n: int, idx: int) -> Option<(Seq<ContribV>, Seq<u64>)>
    decreases n,
{
    if n <= 0 {
        Some((Seq::empty(), s))
    } else {
        match dec_contrib(s, idx) {
            Some((x, r)) => match dec_contribs(r, n - 1, idx + 1) {
                Some((xs, r2)) => Some((seq![x] + xs, r2)),
                None => None,
            },
            None => None,
        }
    }
}

pub open spec fn dec_proj(s: Seq<u64>, idx: int) -> Option<(ProjV, Seq<u64>)> {
    match dec_string(s) {
        Some((name, r1)) => match dec_usize(r1) {
            Some((n, r2)) => match dec_pairs(r2, n as int) {
                Some((roles, r3)) => match dec_usize(r3) {
                    Some((days, r4)) => match dec_usize(r4) {
                        Some((sc, r5)) => match dec_usize(r5) {
                            Some((bb, r6)) => Some(
                                (
                                    ProjV {
                                        id: idx as usize,
                                        name,
                                        roles,
                                        days_to_completion: days,
                                        score: sc,
                                        best_before: bb,
                                    },
                                    r6,
                                ),
                            ),
                            None => None,
                        },
                        None => None,
                    },
                    None => None,
                },
                None => None,
            },
            None => None,
        },
        None => None,
    }
}

pub open spec fn dec_projs(s: Seq<u64>, n: int, idx: int) -> Option<(Seq<ProjV>, Seq<u64>)>
    decreases n,
{
    if n <= 0 {
        Some((Seq::empty(), s))
    } else {
        match dec_proj(s, idx) {
            Some((x, r)) => match dec_projs(r, n - 1, idx + 1) {
                Some((xs, r2)) => Some((seq![x] + xs, r2)),
                None => None,
            },
            None => None,
        }
    }
}

/// Parse a whole word image: version word, the six sections, nothing left
/// over, and the decoded baseline well formed.
pub open spec fn dec_baseline_words(ws: Seq<u64>) -> Option<BaselineV> {
    match dec_word(ws) {
        Some((ver, s0)) => if ver != CACHE_VERSION {
            None
        } else {
            match dec_usize(s0) {
                Some((nct, s1)) => match dec_strings(s1, nct as int) {
                    Some((ctbl, s2)) => match dec_usize(s2) {
                        Some((npt, s3)) => match dec_strings(s3, npt as int) {
                            Some((ptbl, s4)) => match dec_usize(s4) {
                                Some((nst, s5)) => match dec_strings(s5, nst as int) {
                                    Some((stbl, s6)) => match dec_usize(s6) {
                                        Some((nlv, s7)) => match dec_triples(s7, nlv as int) {
                                            Some((lvls, s8)) => match dec_usize(s8) {
                                                Some((ncs, s9)) => match dec_contribs(
                                                    s9,
                                                    ncs as int,
                                                    0,
                                                ) {
                                                    Some((cs, s10)) => match dec_usize(s10) {
                                                        Some((nps, s11)) => match dec_projs(
                                                            s11,
                                                            nps as int,
                                                            0,
                                                        ) {
                                                            Some((pjs, s12)) => {
                                                                let b = BaselineV {
                                                                    pre: PreV {
                                                                        contributors_id: ctbl,
                                                                        projects_id: ptbl,
                                                                        skills_id: stbl,
                                                                        levels: lvls,
                                                                    },
                                                                    contributors: cs,
                                                                    projects: pjs,
                                                                };
                                                                if s12.len() == 0 && wf_baseline(
                                                                    b,
                                                                ) {
                                                                    Some(b)
                                                                } else {
                                                                    None
                                                                }
                                                            },
                                                            None => None,
                                                        },
                                                        None => None,
                                                    },
                                                    None => None,
                                                },
                                                None => None,
                                            },
                                            None => None,
                                        },
                                        None => None,
                                    },
                                    None => None,
                                },
                                None => None,
                            },
                            None => None,
                        },
                        None => None,
                    },
                    None => None,
                },
                None => None,
            }
        },
        None => None,
    }
}

// ---------------------------------------------------------------------------
// Byte layer
// ---------------------------------------------------------------------------
pub open spec fn words_bytes(ws: Seq<u64>) -> Seq<u8>
    decreases ws.len(),
{
    if ws.len() == 0 {
        Seq::empty()
    } else {
        spec_u64_to_le_bytes(ws.first()) + words_bytes(ws.drop_first())
    }
}

pub open spec fn bytes_words(bs: Seq<u8>) -> Seq<u64>
    decreases bs.len(),
{
    if bs.len() < 8 {
        Seq::empty()
    } else {
        seq![spec_u64_from_le_bytes(bs.take(8))] + bytes_words(bs.skip(8))
    }
}

/// The whole byte image of a baseline.
pub open spec fn enc_baseline(b: BaselineV) -> Seq<u8> {
    words_bytes(enc_baseline_words(b))
}

/// What any byte blob decodes to, if anything.
pub open spec fn spec_decode(bytes: Seq<u8>) -> Option<BaselineV> {
    if bytes.len() % 8 != 0 {
        None
    } else {
        dec_baseline_words(bytes_words(bytes))
    }
}

/// The error reported for a blob that does not decode.
pub open spec fn spec_cache_err(bytes: Seq<u8>) -> crate::codec::CacheError {
    if bytes.len() % 8 == 0 && bytes_words(bytes).len() > 0 && bytes_words(bytes)[0]
        != CACHE_VERSION {
        CacheError::WrongVersion
    } else {
        CacheError::Malformed
    }
}

/// Why a persisted baseline could not be loaded: a foreign format version, or
/// a corrupt blob.
#[derive(Debug, PartialEq)]
pub enum CacheError {
    WrongVersion,
    Malformed,
}

// ---------------------------------------------------------------------------
// Round trip
// ---------------------------------------------------------------------------
pub proof fn lemma_words_bytes_rt(ws: Seq<u64>)
    ensures
        words_bytes(ws).len() == 8 * ws.len(),
        bytes_words(words_bytes(ws)) == ws,
    decreases ws.len(),
{
    vstd::bytes::lemma_auto_spec_u64_to_from_le_bytes();
    if ws.len() > 0 {
        lemma_words_bytes_rt(ws.drop_first());
        let e = spec_u64_to_le_bytes(ws.first());
        let rest = words_bytes(ws.drop_first());
        assert((e + rest).take(8) =~= e);
        assert((e + rest).skip(8) =~= rest);
        assert(bytes_words(words_bytes(ws)) =~= ws);
    }
}

pub proof fn lemma_dec_usize_complete(v: usize, rest: Seq<u64>)
    ensures
        dec_usize(seq![v as u64] + rest) == Some((v, rest)),
{
    let s = seq![v as u64] + rest;
    assert(s.first() == v as u64);
    assert(s.drop_first() =~= rest);
}

pub proof fn lemma_dec_char_complete(c: char, rest: Seq<u64>)
    ensures
        dec_char(seq![c as u64] + rest) == Some((c, rest)),
{
    let s = seq![c as u64] + rest;
    assert(s.first() == c as u64);
    assert(s.drop_first() =~= rest);
    assert(valid_scalar_word(c as u64));
    let c2 = char_of_word(c as u64);
    assert(c as u64 == c as u64);
    assert(c2 as u64 == c as u64);
    assert(c2 == c);
}

pub proof fn lemma_dec_chars_complete(cs: Seq<char>, rest: Seq<u64>)
    ensures
        dec_chars(cs.map_values(|c: char| c as u64) + rest, cs.len() as int) == Some((cs, rest)),
    decreases cs.len(),
{
    let enc = cs.map_values(|c: char| c as u64);
    if cs.len() == 0 {
        assert(enc + rest =~= rest);
        assert(dec_chars(enc + rest, 0) == Some((Seq::<char>::empty(), rest)));
        assert(cs =~= Seq::<char>::empty());
    } else {
        let c0 = cs.first();
        let tail = cs.drop_first();
        let enc_tail = tail.map_values(|c: char| c as u64);
        assert(enc =~= seq![c0 as u64] + enc_tail);
        assert(enc + rest =~= seq![c0 as u64] + (enc_tail + rest));
        lemma_dec_char_complete(c0, enc_tail + rest);
        lemma_dec_chars_complete(tail, rest);
        assert(seq![c0] + tail =~= cs);
    }
}

pub proof fn lemma_dec_string_complete(s: Seq<char>, rest: Seq<u64>)
    requires
        s.len() <= usize::MAX,
    ensures
        dec_string(enc_string(s) + rest) == Some((s, rest)),
{
    let n = s.len() as usize;
    let chars = s.map_values(|c: char| c as u64);
    assert(enc_string(s) + rest =~= seq![n as u64] + (chars + rest));
    lemma_dec_usize_complete(n, chars + rest);
    lemma_dec_chars_complete(s, rest);
}

pub proof fn lemma_dec_strings_complete(t: Seq<Seq<char>>, rest: Seq<u64>)
    requires
        forall|i: int| 0 <= i < t.len() ==> (#[trigger] t[i]).len() <= usize::MAX,
    ensures
        dec_strings(enc_strings(t) + rest, t.len() as int) == Some((t, rest)),
    decreases t.len(),
{
    if t.len() == 0 {
        assert(enc_strings(t) + rest =~= rest);
        assert(t =~= Seq::<Seq<char>>::empty());
    } else {
        let x0 = t.first();
        let tail = t.drop_first();
        assert(enc_strings(t) + rest =~= enc_string(x0) + (enc_strings(tail) + rest));
        lemma_dec_string_complete(x0, enc_strings(tail) + rest);
        assert(forall|i: int| 0 <= i < tail.len() ==> (#[trigger] tail[i]).len() <= usize::MAX)
            by {
            assert forall|i: int| 0 <= i < tail.len() implies (#[trigger] tail[i]).len()
                <= usize::MAX by {
                assert(tail[i] == t[i + 1]);
            }
        }
        lemma_dec_strings_complete(tail, rest);
        assert(seq![x0] + tail =~= t);
    }
}

pub proof fn lemma_dec_triples_complete(s: Seq<(usize, usize, usize)>, rest: Seq<u64>)
    ensures
        dec_triples(enc_triples(s) + rest, s.len() as int) == Some((s, rest)),
    decreases s.len(),
{
    if s.len() == 0 {
        assert(enc_triples(s) + rest =~= rest);
        assert(s =~= Seq::<(usize, usize, usize)>::empty());
    } else {
        let e = s.first();
        let tail = s.drop_first();
        let tail_enc = enc_triples(tail) + rest;
        assert(enc_triples(s) + rest =~= seq![e.0 as u64] + (seq![e.1 as u64] + (seq![e.2 as u64]
            + tail_enc)));
        lemma_dec_usize_complete(e.0, seq![e.1 as u64] + (seq![e.2 as u64] + tail_enc));
        lemma_dec_usize_complete(e.1, seq![e.2 as u64] + tail_enc);
        lemma_dec_usize_complete(e.2, tail_enc);
        lemma_dec_triples_complete(tail, rest);
        assert((e.0, e.1, e.2) == e);
        assert(seq![e] + tail =~= s);
    }
}

pub proof fn lemma_dec_pairs_complete(s: Seq<(usize, usize)>, rest: Seq<u64>)
    ensures
        dec_pairs(enc_pairs(s) + rest, s.len() as int) == Some((s, rest)),
    decreases s.len(),
{
    if s.len() == 0 {
        assert(enc_pairs(s) + rest =~= rest);
        assert(s =~= Seq::<(usize, usize)>::empty());
    } else {
        let e = s.first();
        let tail = s.drop_first();
        let tail_enc = enc_pairs(tail) + rest;
        assert(enc_pairs(s) + rest =~= seq![e.0 as u64] + (seq![e.1 as u64] + tail_enc));
        lemma_dec_usize_complete(e.0, seq![e.1 as u64] + tail_enc);
        lemma_dec_usize_complete(e.1, tail_enc);
        lemma_dec_pairs_complete(tail, rest);
        assert((e.0, e.1) == e);
        assert(seq![e] + tail =~= s);
    }
}

pub proof fn lemma_dec_usizes_complete(xs: Seq<usize>, rest: Seq<u64>)
    ensures
        dec_usizes(xs.map_values(|x: usize| x as u64) + rest, xs.len() as int) == Some(
            (xs, rest),
        ),
    decreases xs.len(),
{
    let enc = xs.map_values(|x: usize| x as u64);
    if xs.len() == 0 {
        assert(enc + rest =~= rest);
        assert(xs =~= Seq::<usize>::empty());
    } else {
        let x0 = xs.first();
        let tail = xs.drop_first();
        let enc_tail = tail.map_values(|x: usize| x as u64);
        assert(enc =~= seq![x0 as u64] + enc_tail);
        assert(enc + rest =~= seq![x0 as u64] + (enc_tail + rest));
        lemma_dec_usize_complete(x0, enc_tail + rest);
        lemma_dec_usizes_complete(tail, rest);
        assert(seq![x0] + tail =~= xs);
    }
}

pub proof fn lemma_dec_contrib_complete(c: ContribV, idx: int, rest: Seq<u64>)
    requires
        c.name.len() <= usize::MAX,
        c.skills.len() <= usize::MAX,
        c.id == idx,
    ensures
        dec_contrib(enc_contrib(c) + rest, idx) == Some((c, rest)),
{
    let skills_enc = c.skills.map_values(|x: usize| x as u64);
    let after_name = seq![c.skills.len() as u64] + (skills_enc + (seq![c.next_availability as u64]
        + rest));
    assert(enc_contrib(c) + rest =~= enc_string(c.name) + after_name);
    lemma_dec_string_complete(c.name, after_name);
    lemma_dec_usize_complete(c.skills.len() as usize, skills_enc + (seq![
        c.next_availability as u64,
    ] + rest));
    lemma_dec_usizes_complete(c.skills, seq![c.next_availability as u64] + rest);
    lemma_dec_usize_complete(c.next_availability, rest);
}

pub proof fn lemma_dec_contribs_complete(cs: Seq<ContribV>, idx: int, rest: Seq<u64>)
    requires
        forall|i: int|
            0 <= i < cs.len() ==> {
                let c = #[trigger] cs[i];
                c.name.len() <= usize::MAX && c.skills.len() <= usize::MAX && c.id == idx + i
            },
    ensures
        dec_contribs(enc_contribs(cs) + rest, cs.len() as int, idx) == Some((cs, rest)),
    decreases cs.len(),
{
    if cs.len() == 0 {
        assert(enc_contribs(cs) + rest =~= rest);
        assert(cs =~= Seq::<ContribV>::empty());
    } else {
        let c0 = cs.first();
        let tail = cs.drop_first();
        assert(c0 == cs[0]);
        assert(enc_contribs(cs) + rest =~= enc_contrib(c0) + (enc_contribs(tail) + rest));
        lemma_dec_contrib_complete(c0, idx, enc_contribs(tail) + rest);
        assert(forall|i: int|
            0 <= i < tail.len() ==> {
                let c = #[trigger] tail[i];
                c.name.len() <= usize::MAX && c.skills.len() <= usize::MAX && c.id == idx + 1 + i
            }) by {
            assert forall|i: int| 0 <= i < tail.len() implies {
                let c = #[trigger] tail[i];
                c.name.len() <= usize::MAX && c.skills.len() <= usize::MAX && c.id == idx + 1 + i
            } by {
                assert(tail[i] == cs[i + 1]);
            }
        }
        lemma_dec_contribs_complete(tail, idx + 1, rest);
        assert(seq![c0] + tail =~= cs);
    }
}

pub proof fn lemma_dec_proj_complete(p: ProjV, idx: int, rest: Seq<u64>)
    requires
        p.name.len() <= usize::MAX,
        p.roles.len() <= usize::MAX,
        p.id == idx,
    ensures
        dec_proj(enc_proj(p) + rest, idx) == Some((p, rest)),
{
    let tail3 = seq![p.days_to_completion as u64, p.score as u64, p.best_before as u64] + rest;
    let after_name = seq![p.roles.len() as u64] + (enc_pairs(p.roles) + tail3);
    assert(enc_proj(p) + rest =~= enc_string(p.name) + after_name);
    lemma_dec_string_complete(p.name, after_name);
    lemma_dec_usize_complete(p.roles.len() as usize, enc_pairs(p.roles) + tail3);
    lemma_dec_pairs_complete(p.roles, tail3);
    assert(tail3 =~= seq![p.days_to_completion as u64] + (seq![p.score as u64] + (seq![
        p.best_before as u64,
    ] + rest)));
    lemma_dec_usize_complete(p.days_to_completion, seq![p.score as u64] + (seq![
        p.best_before as u64,
    ] + rest));
    lemma_dec_usize_complete(p.score, seq![p.best_before as u64] + rest);
    lemma_dec_usize_complete(p.best_before, rest);
}

pub proof fn lemma_dec_projs_complete(ps: Seq<ProjV>, idx: int, rest: Seq<u64>)
    requires
        forall|i: int|
            0 <= i < ps.len() ==> {
                let p = #[trigger] ps[i];
                p.name.len() <= usize::MAX && p.roles.len() <= usize::MAX && p.id == idx + i
            },
    ensures
        dec_projs(enc_projs(ps) + rest, ps.len() as int, idx) == Some((ps, rest)),
    decreases ps.len(),
{
    if ps.len() == 0 {
        assert(enc_projs(ps) + rest =~= rest);
        assert(ps =~= Seq::<ProjV>::empty());
    } else {
        let p0 = ps.first();
        let tail = ps.drop_first();
        assert(p0 == ps[0]);
        assert(enc_projs(ps) + rest =~= enc_proj(p0) + (enc_projs(tail) + rest));
        lemma_dec_proj_complete(p0, idx, enc_projs(tail) + rest);
        assert(forall|i: int|
            0 <= i < tail.len() ==> {
                let p = #[trigger] tail[i];
                p.name.len() <= usize::MAX && p.roles.len() <= usize::MAX && p.id == idx + 1 + i
            }) by {
            assert forall|i: int| 0 <= i < tail.len() implies {
                let p = #[trigger] tail[i];
                p.name.len() <= usize::MAX && p.roles.len() <= usize::MAX && p.id == idx + 1 + i
            } by {
                assert(tail[i] == ps[i + 1]);
            }
        }
        lemma_dec_projs_complete(tail, idx + 1, rest);
        assert(seq![p0] + tail =~= ps);
    }
}

/// Round trip: a well-formed, machine-representable baseline decodes from its
/// own encoding to exactly itself.
#[verifier::rlimit(100)]
pub proof fn lemma_round_trip(b: BaselineV)
    requires
        wf_baseline(b),
        enc_bounded(b),
    ensures
        spec_decode(enc_baseline(b)) == Some(b),
{
    let ws = enc_baseline_words(b);
    lemma_words_bytes_rt(ws);
    assert(enc_baseline(b).len() % 8 == 0);
    let empty = Seq::<u64>::empty();
    let w12 = empty;
    let w11 = enc_projs(b.projects) + w12;
    let w10 = seq![b.projects.len() as u64] + w11;
    let w9 = enc_contribs(b.contributors) + w10;
    let w8 = seq![b.contributors.len() as u64] + w9;
    let w7 = enc_triples(b.pre.levels) + w8;
    let w6 = seq![b.pre.levels.len() as u64] + w7;
    let w5 = enc_strings(b.pre.skills_id) + w6;
    let w4 = seq![b.pre.skills_id.len() as u64] + w5;
    let w3 = enc_strings(b.pre.projects_id) + w4;
    let w2 = seq![b.pre.projects_id.len() as u64] + w3;
    let w1 = enc_strings(b.pre.contributors_id) + w2;
    let w0 = seq![b.pre.contributors_id.len() as u64] + w1;
    assert(ws =~= seq![CACHE_VERSION] + w0);
    assert(ws.first() == CACHE_VERSION);
    assert(ws.drop_first() =~= w0);
    lemma_dec_usize_complete(b.pre.contributors_id.len() as usize, w1);
    lemma_dec_strings_complete(b.pre.contributors_id, w2);
    lemma_dec_usize_complete(b.pre.projects_id.len() as usize, w3);
    lemma_dec_strings_complete(b.pre.projects_id, w4);
    lemma_dec_usize_complete(b.pre.skills_id.len() as usize, w5);
    lemma_dec_strings_complete(b.pre.skills_id, w6);
    lemma_dec_usize_complete(b.pre.levels.len() as usize, w7);
    lemma_dec_triples_complete(b.pre.levels, w8);
    lemma_dec_usize_complete(b.contributors.len() as usize, w9);
    lemma_dec_contribs_complete(b.contributors, 0, w10);
    lemma_dec_usize_complete(b.projects.len() as usize, w11);
    lemma_dec_projs_complete(b.projects, 0, w12);
    assert(BaselineV {
        pre: PreV {
            contributors_id: b.pre.contributors_id,
            projects_id: b.pre.projects_id,
            skills_id: b.pre.skills_id,
            levels: b.pre.levels,
        },
        contributors: b.contributors,
        projects: b.projects,
    } =~= b);
}

// ---------------------------------------------------------------------------
// Executable encoder
// ---------------------------------------------------------------------------
/// Relies on char::from_u32: `Some` exactly on valid Unicode scalar values,
/// returning the character with that value.
#[verifier::external_body]
fn char_from_u32(v: u32) -> (r: Option<char>)
    ensures
        r is Some <==> (v < 0xD800 || (0xE000 <= v && v <= 0x10FFFF)),
        r matches Some(c) ==> c as u32 == v && c as u64 == v as u64,
{
    char::from_u32(v)
}

/// Relies on String::push: appends one character at the end of the string.
#[verifier::external_body]
fn push_char(s: &mut String, c: char)
    ensures
        final(s)@ == old(s)@.push(c),
{
    s.push(c);
}

pub proof fn lemma_enc_strings_app(a: Seq<Seq<char>>, b: Seq<Seq<char>>)
    ensures
        enc_strings(a + b) == enc_strings(a) + enc_strings(b),
    decreases a.len(),
{
    if a.len() == 0 {
        assert(a + b =~= b);
        assert(enc_strings(a) + enc_strings(b) =~= enc_strings(b));
    } else {
        assert((a + b).drop_first() =~= a.drop_first() + b);
        assert((a + b).first() == a.first());
        lemma_enc_strings_app(a.drop_first(), b);
        assert(enc_strings(a + b) =~= enc_strings(a) + enc_strings(b));
    }
}

pub proof fn lemma_enc_triples_app(a: Seq<(usize, usize, usize)>, b: Seq<(usize, usize, usize)>)
    ensures
        enc_triples(a + b) == enc_triples(a) + enc_triples(b),
    decreases a.len(),
{
    if a.len() == 0 {
        assert(a + b =~= b);
        assert(enc_triples(a) + enc_triples(b) =~= enc_triples(b));
    } else {
        assert((a + b).drop_first() =~= a.drop_first() + b);
        assert((a + b).first() == a.first());
        lemma_enc_triples_app(a.drop_first(), b);
        assert(enc_triples(a + b) =~= enc_triples(a) + enc_triples(b));
    }
}

pub proof fn lemma_enc_pairs_app(a: Seq<(usize, usize)>, b: Seq<(usize, usize)>)
    ensures
        enc_pairs(a + b) == enc_pairs(a) + enc_pairs(b),
    decreases a.len(),
{
    if a.len() == 0 {
        assert(a + b =~= b);
        assert(enc_pairs(a) + enc_pairs(b) =~= enc_pairs(b));
    } else {
        assert((a + b).drop_first() =~= a.drop_first() + b);
        assert((a + b).first() == a.first());
        lemma_enc_pairs_app(a.drop_first(), b);
        assert(enc_pairs(a + b) =~= enc_pairs(a) + enc_pairs(b));
    }
}

pub proof fn lemma_enc_contribs_app(a: Seq<ContribV>, b: Seq<ContribV>)
    ensures
        enc_contribs(a + b) == enc_contribs(a) + enc_contribs(b),
    decreases a.len(),
{
    if a.len() == 0 {
        assert(a + b =~= b);
        assert(enc_contribs(a) + enc_contribs(b) =~= enc_contribs(b));
    } else {
        assert((a + b).drop_first() =~= a.drop_first() + b);
        assert((a + b).first() == a.first());
        lemma_enc_contribs_app(a.drop_first(), b);
        assert(enc_contribs(a + b) =~= enc_contribs(a) + enc_contribs(b));
    }
}

pub proof fn lemma_enc_projs_app(a: Seq<ProjV>, b: Seq<ProjV>)
    ensures
        enc_projs(a + b) == enc_projs(a) + enc_projs(b),
    decreases a.len(),
{
    if a.len() == 0 {
        assert(a + b =~= b);
        assert(enc_projs(a) + enc_projs(b) =~= enc_projs(b));
    } else {
        assert((a + b).drop_first() =~= a.drop_first() + b);
        assert((a + b).first() == a.first());
        lemma_enc_projs_app(a.drop_first(), b);
        assert(enc_projs(a + b) =~= enc_projs(a) + enc_projs(b));
    }
}

pub proof fn lemma_words_bytes_app(a: Seq<u64>, b: Seq<u64>)
    ensures
        words_bytes(a + b) == words_bytes(a) + words_bytes(b),
    decreases a.len(),
{
    if a.len() == 0 {
        assert(a + b =~= b);
        assert(words_bytes(a) + words_bytes(b) =~= words_bytes(b));
    } else {
        assert((a + b).drop_first() =~= a.drop_first() + b);
        assert((a + b).first() == a.first());
        lemma_words_bytes_app(a.drop_first(), b);
        assert(words_bytes(a + b) =~= words_bytes(a) + words_bytes(b));
    }
}


proof fn lemma_char_eq(a: char, b: char)
    requires
        a as u32 == b as u32,
    ensures
        a == b,
{
}

pub proof fn lemma_enc_strings_one(x: Seq<char>)
    ensures
        enc_strings(seq![x]) == enc_string(x),
{
    assert(seq![x].first() == x);
    assert(seq![x].drop_first() =~= Seq::<Seq<char>>::empty());
    assert(enc_strings(Seq::<Seq<char>>::empty()) == Seq::<u64>::empty());
    assert(enc_strings(seq![x]) =~= enc_string(x));
}

pub proof fn lemma_enc_triples_one(x: (usize, usize, usize))
    ensures
        enc_triples(seq![x]) == seq![x.0 as u64, x.1 as u64, x.2 as u64],
{
    assert(seq![x].first() == x);
    assert(seq![x].drop_first() =~= Seq::<(usize, usize, usize)>::empty());
    assert(enc_triples(Seq::<(usize, usize, usize)>::empty()) == Seq::<u64>::empty());
    assert(enc_triples(seq![x]) =~= seq![x.0 as u64, x.1 as u64, x.2 as u64]);
}

pub proof fn lemma_enc_pairs_one(x: (usize, usize))
    ensures
        enc_pairs(seq![x]) == seq![x.0 as u64, x.1 as u64],
{
    assert(seq![x].first() == x);
    assert(seq![x].drop_first() =~= Seq::<(usize, usize)>::empty());
    assert(enc_pairs(Seq::<(usize, usize)>::empty()) == Seq::<u64>::empty());
    assert(enc_pairs(seq![x]) =~= seq![x.0 as u64, x.1 as u64]);
}

pub proof fn lemma_enc_contribs_one(x: ContribV)
    ensures
        enc_contribs(seq![x]) == enc_contrib(x),
{
    assert(seq![x].first() == x);
    assert(seq![x].drop_first() =~= Seq::<ContribV>::empty());
    assert(enc_contribs(Seq::<ContribV>::empty()) == Seq::<u64>::empty());
    assert(enc_contribs(seq![x]) =~= enc_contrib(x));
}

pub proof fn lemma_enc_projs_one(x: ProjV)
    ensures
        enc_projs(seq![x]) == enc_proj(x),
{
    assert(seq![x].first() == x);
    assert(seq![x].drop_first() =~= Seq::<ProjV>::empty());
    assert(enc_projs(Seq::<ProjV>::empty()) == Seq::<u64>::empty());
    assert(enc_projs(seq![x]) =~= enc_proj(x));
}

pub proof fn lemma_words_bytes_one(x: u64)
    ensures
        words_bytes(seq![x]) == spec_u64_to_le_bytes(x),
{
    assert(seq![x].first() == x);
    assert(seq![x].drop_first() =~= Seq::<u64>::empty());
    assert(words_bytes(Seq::<u64>::empty()) == Seq::<u8>::empty());
    assert(words_bytes(seq![x]) =~= spec_u64_to_le_bytes(x));
}

fn write_string(words: &mut Vec<u64>, s: &String)
    ensures
        final(words)@ == old(words)@ + enc_string(s@),
        s@.len() <= usize::MAX,
{
    let n = s.as_str().unicode_len();
    words.push(n as u64);
    proof {
        assert(words@ =~= old(words)@ + seq![s@.len() as u64]);
    }
    let ghost base = old(words)@ + seq![s@.len() as u64];
    for i in 0..n
        invariant
            n == s@.len(),
            base == old(words)@ + seq![s@.len() as u64],
            words@ == base + s@.take(i as int).map_values(|c: char| c as u64),
    {
        let c = s.as_str().get_char(i);
        words.push(c as u64);
        proof {
            assert(s@.take(i + 1).map_values(|c: char| c as u64) =~= s@.take(
                i as int,
            ).map_values(|c: char| c as u64).push(s@[i as int] as u64));
            assert(words@ =~= base + s@.take(i + 1).map_values(|c: char| c as u64));
        }
    }
    proof {
        assert(s@.take(n as int) =~= s@);
        assert(words@ =~= old(words)@ + enc_string(s@));
    }
}

fn write_strings(words: &mut Vec<u64>, t: &Vec<String>)
    ensures
        final(words)@ == old(words)@ + seq![names_of(t@).len() as u64] + enc_strings(
            names_of(t@),
        ),
        names_of(t@).len() <= usize::MAX,
        forall|i: int| 0 <= i < t@.len() ==> (#[trigger] names_of(t@)[i]).len() <= usize::MAX,
{
    let n = t.len();
    words.push(n as u64);
    proof {
        assert(words@ =~= old(words)@ + seq![names_of(t@).len() as u64]);
    }
    let ghost base = old(words)@ + seq![names_of(t@).len() as u64];
    for k in 0..n
        invariant
            n == t@.len(),
            base == old(words)@ + seq![names_of(t@).len() as u64],
            words@ == base + enc_strings(names_of(t@).take(k as int)),
            forall|i: int| 0 <= i < k ==> (#[trigger] names_of(t@)[i]).len() <= usize::MAX,
    {
        write_string(words, &t[k]);
        proof {
            let nm = names_of(t@);
            assert(nm.take(k + 1) =~= nm.take(k as int) + seq![nm[k as int]]);
            lemma_enc_strings_app(nm.take(k as int), seq![nm[k as int]]);
            lemma_enc_strings_one(nm[k as int]);
            assert(nm[k as int] == t@[k as int]@);
            assert(words@ =~= base + enc_strings(nm.take(k + 1)));
        }
    }
    proof {
        assert(names_of(t@).take(n as int) =~= names_of(t@));
    }
}

fn write_levels(words: &mut Vec<u64>, lm: &LevelMap)
    ensures
        final(words)@ == old(words)@ + seq![lm@.len() as u64] + enc_triples(lm@),
        lm@.len() <= usize::MAX,
{
    let n = lm.entries.len();
    words.push(n as u64);
    proof {
        assert(words@ =~= old(words)@ + seq![lm@.len() as u64]);
    }
    let ghost base = old(words)@ + seq![lm@.len() as u64];
    for k in 0..n
        invariant
            n == lm@.len(),
            base == old(words)@ + seq![lm@.len() as u64],
            words@ == base + enc_triples(lm@.take(k as int)),
    {
        let e = lm.entries[k];
        words.push(e.0 as u64);
        words.push(e.1 as u64);
        words.push(e.2 as u64);
        proof {
            assert(lm@.take(k + 1) =~= lm@.take(k as int) + seq![lm@[k as int]]);
            lemma_enc_triples_app(lm@.take(k as int), seq![lm@[k as int]]);
            lemma_enc_triples_one(lm@[k as int]);
            assert(words@ =~= base + enc_triples(lm@.take(k + 1)));
        }
    }
    proof {
        assert(lm@.take(n as int) =~= lm@);
    }
}

fn write_contributors(words: &mut Vec<u64>, cs: &Vec<Contributor>)
    ensures
        ({
            let views = cs@.map_values(|c: Contributor| c@);
            &&& final(words)@ == old(words)@ + seq![views.len() as u64] + enc_contribs(views)
            &&& views.len() <= usize::MAX
            &&& forall|i: int|
                0 <= i < views.len() ==> {
                    let c = #[trigger] views[i];
                    c.name.len() <= usize::MAX && c.skills.len() <= usize::MAX
                }
        }),
{
    let ghost views = cs@.map_values(|c: Contributor| c@);
    let n = cs.len();
    words.push(n as u64);
    proof {
        assert(words@ =~= old(words)@ + seq![views.len() as u64]);
    }
    let ghost base = old(words)@ + seq![views.len() as u64];
    for k in 0..n
        invariant
            n == cs@.len(),
            views == cs@.map_values(|c: Contributor| c@),
            base == old(words)@ + seq![views.len() as u64],
            words@ == base + enc_contribs(views.take(k as int)),
            forall|i: int|
                0 <= i < k ==> {
                    let c = #[trigger] views[i];
                    c.name.len() <= usize::MAX && c.skills.len() <= usize::MAX
                },
    {
        let ghost wpre = words@;
        write_string(words, &cs[k].name);
        let ns = cs[k].skills.len();
        words.push(ns as u64);
        let ghost base2 = wpre + enc_string(views[k as int].name) + seq![
            views[k as int].skills.len() as u64,
        ];
        for j in 0..ns
            invariant
                n == cs@.len(),
                k < n,
                views == cs@.map_values(|c: Contributor| c@),
                ns == views[k as int].skills.len(),
                base2 == wpre + enc_string(views[k as int].name) + seq![
                    views[k as int].skills.len() as u64,
                ],
                words@ == base2 + views[k as int].skills.take(j as int).map_values(
                    |x: usize| x as u64,
                ),
        {
            words.push(cs[k].skills[j] as u64);
            proof {
                let sk = views[k as int].skills;
                assert(sk.take(j + 1).map_values(|x: usize| x as u64) =~= sk.take(
                    j as int,
                ).map_values(|x: usize| x as u64).push(sk[j as int] as u64));
                assert(words@ =~= base2 + sk.take(j + 1).map_values(|x: usize| x as u64));
            }
        }
        words.push(cs[k].next_availability as u64);
        proof {
            let c = views[k as int];
            assert(c.skills.take(ns as int) =~= c.skills);
            assert(words@ =~= wpre + enc_contrib(c));
            assert(views.take(k + 1) =~= views.take(k as int) + seq![c]);
            lemma_enc_contribs_app(views.take(k as int), seq![c]);
            lemma_enc_contribs_one(c);
            assert(words@ =~= base + enc_contribs(views.take(k + 1)));
        }
    }
    proof {
        assert(views.take(n as int) =~= views);
    }
}

fn write_projects(words: &mut Vec<u64>, ps: &Vec<Project>)
    ensures
        ({
            let views = ps@.map_values(|p: Project| p@);
            &&& final(words)@ == old(words)@ + seq![views.len() as u64] + enc_projs(views)
            &&& views.len() <= usize::MAX
            &&& forall|i: int|
                0 <= i < views.len() ==> {
                    let p = #[trigger] views[i];
                    p.name.len() <= usize::MAX && p.roles.len() <= usize::MAX
                }
        }),
{
    let ghost views = ps@.map_values(|p: Project| p@);
    let n = ps.len();
    words.push(n as u64);
    proof {
        assert(words@ =~= old(words)@ + seq![views.len() as u64]);
    }
    let ghost base = old(words)@ + seq![views.len() as u64];
    for k in 0..n
        invariant
            n == ps@.len(),
            views == ps@.map_values(|p: Project| p@),
            base == old(words)@ + seq![views.len() as u64],
            words@ == base + enc_projs(views.take(k as int)),
            forall|i: int|
                0 <= i < k ==> {
                    let p = #[trigger] views[i];
                    p.name.len() <= usize::MAX && p.roles.len() <= usize::MAX
                },
    {
        let ghost wpre = words@;
        write_string(words, &ps[k].name);
        let nr = ps[k].skills.len();
        words.push(nr as u64);
        let ghost base2 = wpre + enc_string(views[k as int].name) + seq![
            views[k as int].roles.len() as u64,
        ];
        for j in 0..nr
            invariant
                n == ps@.len(),
                k < n,
                views == ps@.map_values(|p: Project| p@),
                nr == views[k as int].roles.len(),
                base2 == wpre + enc_string(views[k as int].name) + seq![
                    views[k as int].roles.len() as u64,
                ],
                words@ == base2 + enc_pairs(views[k as int].roles.take(j as int)),
        {
            let role = ps[k].skills[j];
            words.push(role.0 as u64);
            words.push(role.1 as u64);
            proof {
                let rs = views[k as int].roles;
                assert(rs.take(j + 1) =~= rs.take(j as int) + seq![rs[j as int]]);
                lemma_enc_pairs_app(rs.take(j as int), seq![rs[j as int]]);
                lemma_enc_pairs_one(rs[j as int]);
                assert(words@ =~= base2 + enc_pairs(rs.take(j + 1)));
            }
        }
        words.push(ps[k].days_to_completion as u64);
        words.push(ps[k].score as u64);
        words.push(ps[k].best_before as u64);
        proof {
            let p = views[k as int];
            assert(p.roles.take(nr as int) =~= p.roles);
            assert(words@ =~= wpre + enc_proj(p));
            assert(views.take(k + 1) =~= views.take(k as int) + seq![p]);
            lemma_enc_projs_app(views.take(k as int), seq![p]);
            lemma_enc_projs_one(p);
            assert(words@ =~= base + enc_projs(views.take(k + 1)));
        }
    }
    proof {
        assert(views.take(n as int) =~= views);
    }
}

fn words_to_bytes(ws: &Vec<u64>) -> (r: Vec<u8>)
    ensures
        r@ == words_bytes(ws@),
{
    let mut out: Vec<u8> = Vec::new();
    let n = ws.len();
    for k in 0..n
        invariant
            n == ws@.len(),
            out@ == words_bytes(ws@.take(k as int)),
    {
        let mut chunk = vstd::bytes::u64_to_le_bytes(ws[k]);
        out.append(&mut chunk);
        proof {
            assert(ws@.take(k + 1) =~= ws@.take(k as int) + seq![ws@[k as int]]);
            lemma_words_bytes_app(ws@.take(k as int), seq![ws@[k as int]]);
            lemma_words_bytes_one(ws@[k as int]);
            assert(out@ =~= words_bytes(ws@.take(k + 1)));
        }
    }
    proof {
        assert(ws@.take(n as int) =~= ws@);
    }
    out
}

/// Encode a baseline into its versioned binary image.
pub fn encode_baseline(b: &Baseline) -> (r: Vec<u8>)
    ensures
        r@ == enc_baseline(b@),
        enc_bounded(b@),
{
    let mut words: Vec<u64> = Vec::new();
    words.push(CACHE_VERSION);
    write_strings(&mut words, &b.precomputed.contributors_id);
    write_strings(&mut words, &b.precomputed.projects_id);
    write_strings(&mut words, &b.precomputed.skills_id);
    write_levels(&mut words, &b.precomputed.levels);
    write_contributors(&mut words, &b.contributors);
    write_projects(&mut words, &b.projects);
    proof {
        assert(words@ =~= enc_baseline_words(b@));
    }
    words_to_bytes(&words)
}

// ---------------------------------------------------------------------------
// Executable decoder
// ---------------------------------------------------------------------------
pub proof fn lemma_bytes_words_index(bs: Seq<u8>)
    requires
        bs.len() % 8 == 0,
    ensures
        bytes_words(bs).len() == bs.len() / 8,
        forall|j: int|
            0 <= j < bs.len() / 8 ==> #[trigger] bytes_words(bs)[j] == spec_u64_from_le_bytes(
                bs.subrange(8 * j, 8 * j + 8),
            ),
    decreases bs.len(),
{
    if bs.len() >= 8 {
        assert(bs.skip(8).len() % 8 == 0) by {
            assert(bs.skip(8).len() == bs.len() - 8);
        }
        lemma_bytes_words_index(bs.skip(8));
        assert forall|j: int| 0 <= j < bs.len() / 8 implies #[trigger] bytes_words(bs)[j]
            == spec_u64_from_le_bytes(bs.subrange(8 * j, 8 * j + 8)) by {
            if j == 0 {
                assert(bs.take(8) =~= bs.subrange(0, 8));
            } else {
                assert(bytes_words(bs)[j] == bytes_words(bs.skip(8))[j - 1]);
                assert(bs.skip(8).subrange(8 * (j - 1), 8 * (j - 1) + 8) =~= bs.subrange(
                    8 * j,
                    8 * j + 8,
                ));
            }
        }
    }
}

fn bytes_to_words(bytes: &Vec<u8>) -> (r: Result<Vec<u64>, CacheError>)
    ensures
        match r {
            Ok(ws) => bytes@.len() % 8 == 0 && ws@ == bytes_words(bytes@),
            Err(e) => bytes@.len() % 8 != 0 && e == CacheError::Malformed,
        },
{
    let n = bytes.len();
    if n % 8 != 0 {
        return Err(CacheError::Malformed);
    }
    let m = n / 8;
    proof {
        lemma_bytes_words_index(bytes@);
    }
    let mut ws: Vec<u64> = Vec::new();
    for k in 0..m
        invariant
            n == bytes@.len(),
            n % 8 == 0,
            m == n / 8,
            bytes_words(bytes@).len() == m,
            forall|j: int|
                0 <= j < m ==> #[trigger] bytes_words(bytes@)[j] == spec_u64_from_le_bytes(
                    bytes@.subrange(8 * j, 8 * j + 8),
                ),
            ws@.len() == k,
            forall|j: int| 0 <= j < k ==> ws@[j] == bytes_words(bytes@)[j],
    {
        let mut chunk: Vec<u8> = Vec::new();
        for j in 0..8usize
            invariant
                n == bytes@.len(),
                k < m,
                m == n / 8,
                n % 8 == 0,
                chunk@ == bytes@.subrange(8 * k as int, 8 * k + j as int),
        {
            chunk.push(bytes[8 * k + j]);
            proof {
                assert(bytes@.subrange(8 * k as int, 8 * k + j + 1) =~= bytes@.subrange(
                    8 * k as int,
                    8 * k + j as int,
                ).push(bytes@[8 * k + j as int]));
            }
        }
        let w = vstd::bytes::u64_from_le_bytes(chunk.as_slice());
        ws.push(w);
    }
    proof {
        lemma_bytes_words_index(bytes@);
        assert(ws@ =~= bytes_words(bytes@));
    }
    Ok(ws)
}

fn read_usize(ws: &Vec<u64>, pos: usize) -> (r: Result<(usize, usize), CacheError>)
    requires
        pos <= ws@.len(),
    ensures
        match r {
            Ok(v) => {
                &&& dec_usize(ws@.skip(pos as int)) == Some((v.0, ws@.skip(v.1 as int)))
                &&& v.1 == pos + 1
                &&& v.1 <= ws@.len()
            },
            Err(e) => dec_usize(ws@.skip(pos as int)) is None && e == CacheError::Malformed,
        },
{
    if pos >= ws.len() {
        proof {
            assert(ws@.skip(pos as int).len() == 0);
        }
        return Err(CacheError::Malformed);
    }
    let w = ws[pos];
    proof {
        assert(ws@.skip(pos as int).first() == ws@[pos as int]);
        assert(ws@.skip(pos as int).drop_first() =~= ws@.skip(pos as int + 1));
    }
    if w > usize::MAX as u64 {
        return Err(CacheError::Malformed);
    }
    Ok((w as usize, pos + 1))
}

fn read_char(ws: &Vec<u64>, pos: usize) -> (r: Result<(char, usize), CacheError>)
    requires
        pos <= ws@.len(),
    ensures
        match r {
            Ok(v) => {
                &&& dec_char(ws@.skip(pos as int)) == Some((v.0, ws@.skip(v.1 as int)))
                &&& v.1 == pos + 1
                &&& v.1 <= ws@.len()
            },
            Err(e) => dec_char(ws@.skip(pos as int)) is None && e == CacheError::Malformed,
        },
{
    if pos >= ws.len() {
        proof {
            assert(ws@.skip(pos as int).len() == 0);
        }
        return Err(CacheError::Malformed);
    }
    let w = ws[pos];
    proof {
        assert(ws@.skip(pos as int).first() == ws@[pos as int]);
        assert(ws@.skip(pos as int).drop_first() =~= ws@.skip(pos as int + 1));
    }
    if !(w < 0xD800 || (0xE000 <= w && w <= 0x10FFFF)) {
        return Err(CacheError::Malformed);
    }
    match char_from_u32(w as u32) {
        Some(c) => {
            proof {
                assert(w <= 0x10FFFF);
                assert((w as u32) as u64 == w);
                assert(c as u64 == w);
                let c2 = char_of_word(w);
                assert(c2 as u64 == w);
                assert(c2 as u64 == c as u64);
                assert(c2 as u32 == c as u32) by {
                    assert(c2 as u64 <= 0x10FFFF);
                    assert(c as u64 <= 0x10FFFF);
                };
                lemma_char_eq(c2, c);
                assert(c2 == c);
            }
            Ok((c, pos + 1))
        },
        None => {
            proof {
                assert(false);
            }
            Err(CacheError::Malformed)
        },
    }
}

fn read_string(ws: &Vec<u64>, pos: usize) -> (r: Result<(String, usize), CacheError>)
    requires
        pos <= ws@.len(),
    ensures
        match r {
            Ok(v) => {
                &&& dec_string(ws@.skip(pos as int)) == Some((v.0@, ws@.skip(v.1 as int)))
                &&& v.1 <= ws@.len()
            },
            Err(e) => dec_string(ws@.skip(pos as int)) is None && e == CacheError::Malformed,
        },
{
    let (n, start) = match read_usize(ws, pos) {
        Ok(v) => v,
        Err(e) => {
            return Err(e);
        },
    };
    let mut s = String::new();
    let mut cur = start;
    let mut i: usize = 0;
    while i < n
        invariant
            i <= n,
            cur <= ws@.len(),
            dec_string(ws@.skip(pos as int)) == dec_chars(ws@.skip(start as int), n as int),
            ({
                match dec_chars(ws@.skip(cur as int), n - i) {
                    Some((tail, rem)) => dec_chars(ws@.skip(start as int), n as int) == Some(
                        (s@ + tail, rem),
                    ),
                    None => dec_chars(ws@.skip(start as int), n as int) is None,
                }
            }),
        decreases n - i,
    {
        match read_char(ws, cur) {
            Ok((c, p2)) => {
                let ghost spre = s@;
                push_char(&mut s, c);
                proof {
                    match dec_chars(ws@.skip(p2 as int), n - i - 1) {
                        Some((tail2, rem2)) => {
                            assert(dec_chars(ws@.skip(cur as int), n - i) == Some(
                                ((seq![c] + tail2), rem2),
                            ));
                            assert(s@ + tail2 =~= spre + (seq![c] + tail2));
                        },
                        None => {},
                    }
                }
                cur = p2;
                i = i + 1;
            },
            Err(e) => {
                proof {
                    assert(dec_chars(ws@.skip(cur as int), n - i) is None);
                }
                return Err(e);
            },
        }
    }
    proof {
        assert(dec_chars(ws@.skip(cur as int), 0) == Some(
            (Seq::<char>::empty(), ws@.skip(cur as int)),
        ));
        assert(s@ + Seq::<char>::empty() =~= s@);
    }
    Ok((s, cur))
}

fn read_strings(ws: &Vec<u64>, pos: usize, n: usize) -> (r: Result<(Vec<String>, usize), CacheError>)
    requires
        pos <= ws@.len(),
    ensures
        match r {
            Ok(v) => {
                &&& dec_strings(ws@.skip(pos as int), n as int) == Some(
                    (names_of(v.0@), ws@.skip(v.1 as int)),
                )
                &&& v.0@.len() == n
                &&& v.1 <= ws@.len()
            },
            Err(e) => dec_strings(ws@.skip(pos as int), n as int) is None && e
                == CacheError::Malformed,
        },
{
    let mut out: Vec<String> = Vec::new();
    let mut cur = pos;
    let mut i: usize = 0;
    while i < n
        invariant
            i <= n,
            cur <= ws@.len(),
            out@.len() == i,
            ({
                match dec_strings(ws@.skip(cur as int), n - i) {
                    Some((tail, rem)) => dec_strings(ws@.skip(pos as int), n as int) == Some(
                        (names_of(out@) + tail, rem),
                    ),
                    None => dec_strings(ws@.skip(pos as int), n as int) is None,
                }
            }),
        decreases n - i,
    {
        match read_string(ws, cur) {
            Ok((s, p2)) => {
                let ghost outpre = out@;
                out.push(s);
                proof {
                    crate::table::lemma_names_of_push(outpre, out@.last());
                    match dec_strings(ws@.skip(p2 as int), n - i - 1) {
                        Some((tail2, rem2)) => {
                            assert(dec_strings(ws@.skip(cur as int), n - i) == Some(
                                ((seq![out@.last()@] + tail2), rem2),
                            ));
                            assert(names_of(out@) + tail2 =~= names_of(outpre) + (seq![
                                out@.last()@,
                            ] + tail2));
                        },
                        None => {},
                    }
                }
                cur = p2;
                i = i + 1;
            },
            Err(e) => {
                proof {
                    assert(dec_strings(ws@.skip(cur as int), n - i) is None);
                }
                return Err(e);
            },
        }
    }
    proof {
        assert(dec_strings(ws@.skip(cur as int), 0) == Some(
            (Seq::<Seq<char>>::empty(), ws@.skip(cur as int)),
        ));
        assert(names_of(out@) + Seq::<Seq<char>>::empty() =~= names_of(out@));
    }
    Ok((out, cur))
}

fn read_levels(ws: &Vec<u64>, pos: usize, n: usize) -> (r: Result<(LevelMap, usize), CacheError>)
    requires
        pos <= ws@.len(),
    ensures
        match r {
            Ok(v) => {
                &&& dec_triples(ws@.skip(pos as int), n as int) == Some(
                    (v.0@, ws@.skip(v.1 as int)),
                )
                &&& v.1 <= ws@.len()
            },
            Err(e) => dec_triples(ws@.skip(pos as int), n as int) is None && e
                == CacheError::Malformed,
        },
{
    let mut out: Vec<(usize, usize, usize)> = Vec::new();
    let mut cur = pos;
    let mut i: usize = 0;
    while i < n
        invariant
            i <= n,
            cur <= ws@.len(),
            ({
                match dec_triples(ws@.skip(cur as int), n - i) {
                    Some((tail, rem)) => dec_triples(ws@.skip(pos as int), n as int) == Some(
                        (out@ + tail, rem),
                    ),
                    None => dec_triples(ws@.skip(pos as int), n as int) is None,
                }
            }),
        decreases n - i,
    {
        let (a, p1) = match read_usize(ws, cur) {
            Ok(v) => v,
            Err(e) => {
                proof {
                    assert(dec_triples(ws@.skip(cur as int), n - i) is None);
                }
                return Err(e);
            },
        };
        let (b, p2) = match read_usize(ws, p1) {
            Ok(v) => v,
            Err(e) => {
                proof {
                    assert(dec_triples(ws@.skip(cur as int), n - i) is None);
                }
                return Err(e);
            },
        };
        let (c, p3) = match read_usize(ws, p2) {
            Ok(v) => v,
            Err(e) => {
                proof {
                    assert(dec_triples(ws@.skip(cur as int), n - i) is None);
                }
                return Err(e);
            },
        };
        let ghost outpre = out@;
        out.push((a, b, c));
        proof {
            assert(dec_triple(ws@.skip(cur as int)) == Some(((a, b, c), ws@.skip(p3 as int))));
            match dec_triples(ws@.skip(p3 as int), n - i - 1) {
                Some((tail2, rem2)) => {
                    assert(dec_triples(ws@.skip(cur as int), n - i) == Some(
                        ((seq![(a, b, c)] + tail2), rem2),
                    ));
                    assert(out@ + tail2 =~= outpre + (seq![(a, b, c)] + tail2));
                },
                None => {},
            }
        }
        cur = p3;
        i = i + 1;
    }
    proof {
        assert(dec_triples(ws@.skip(cur as int), 0) == Some(
            (Seq::<(usize, usize, usize)>::empty(), ws@.skip(cur as int)),
        ));
        assert(out@ + Seq::<(usize, usize, usize)>::empty() =~= out@);
    }
    Ok((LevelMap { entries: out }, cur))
}

fn read_contributors(ws: &Vec<u64>, pos: usize, n: usize) -> (r: Result<
    (Vec<Contributor>, usize),
    CacheError,
>)
    requires
        pos <= ws@.len(),
    ensures
        match r {
            Ok(v) => {
                &&& dec_contribs(ws@.skip(pos as int), n as int, 0) == Some(
                    (v.0@.map_values(|c: Contributor| c@), ws@.skip(v.1 as int)),
                )
                &&& v.0@.len() == n
                &&& forall|i: int| 0 <= i < v.0@.len() ==> (#[trigger] v.0@[i]).id == i
                &&& v.1 <= ws@.len()
            },
            Err(e) => dec_contribs(ws@.skip(pos as int), n as int, 0) is None && e
                == CacheError::Malformed,
        },
{
    let mut out: Vec<Contributor> = Vec::new();
    let mut cur = pos;
    let mut i: usize = 0;
    while i < n
        invariant
            i <= n,
            cur <= ws@.len(),
            out@.len() == i,
            forall|j: int| 0 <= j < i ==> (#[trigger] out@[j]).id == j,
            ({
                match dec_contribs(ws@.skip(cur as int), n - i, i as int) {
                    Some((tail, rem)) => dec_contribs(ws@.skip(pos as int), n as int, 0) == Some(
                        (out@.map_values(|c: Contributor| c@) + tail, rem),
                    ),
                    None => dec_contribs(ws@.skip(pos as int), n as int, 0) is None,
                }
            }),
        decreases n - i,
    {
        let (name, p1) = match read_string(ws, cur) {
            Ok(v) => v,
            Err(e) => {
                proof {
                    assert(dec_contribs(ws@.skip(cur as int), n - i, i as int) is None);
                }
                return Err(e);
            },
        };
        let (ns, p2) = match read_usize(ws, p1) {
            Ok(v) => v,
            Err(e) => {
                proof {
                    assert(dec_contribs(ws@.skip(cur as int), n - i, i as int) is None);
                }
                return Err(e);
            },
        };
        let (skills, p3) = match read_usizes(ws, p2, ns) {
            Ok(v) => v,
            Err(e) => {
                proof {
                    assert(dec_contribs(ws@.skip(cur as int), n - i, i as int) is None);
                }
                return Err(e);
            },
        };
        let (avail, p4) = match read_usize(ws, p3) {
            Ok(v) => v,
            Err(e) => {
                proof {
                    assert(dec_contribs(ws@.skip(cur as int), n - i, i as int) is None);
                }
                return Err(e);
            },
        };
        let newc = Contributor { id: i, name, skills, next_availability: avail };
        let ghost outpre = out@;
        out.push(newc);
        proof {
            assert(dec_contrib(ws@.skip(cur as int), i as int) == Some(
                (out@.last()@, ws@.skip(p4 as int)),
            ));
            match dec_contribs(ws@.skip(p4 as int), n - i - 1, i + 1) {
                Some((tail2, rem2)) => {
                    assert(dec_contribs(ws@.skip(cur as int), n - i, i as int) == Some(
                        ((seq![out@.last()@] + tail2), rem2),
                    ));
                    assert(out@.map_values(|c: Contributor| c@) =~= outpre.map_values(
                        |c: Contributor| c@,
                    ).push(out@.last()@));
                    assert(out@.map_values(|c: Contributor| c@) + tail2 =~= outpre.map_values(
                        |c: Contributor| c@,
                    ) + (seq![out@.last()@] + tail2));
                },
                None => {},
            }
        }
        cur = p4;
        i = i + 1;
    }
    proof {
        assert(dec_contribs(ws@.skip(cur as int), 0, n as int) == Some(
            (Seq::<ContribV>::empty(), ws@.skip(cur as int)),
        ));
        assert(out@.map_values(|c: Contributor| c@) + Seq::<ContribV>::empty()
            =~= out@.map_values(|c: Contributor| c@));
    }
    Ok((out, cur))
}

fn read_usizes(ws: &Vec<u64>, pos: usize, n: usize) -> (r: Result<(Vec<usize>, usize), CacheError>)
    requires
        pos <= ws@.len(),
    ensures
        match r {
            Ok(v) => {
                &&& dec_usizes(ws@.skip(pos as int), n as int) == Some(
                    (v.0@, ws@.skip(v.1 as int)),
                )
                &&& v.1 <= ws@.len()
            },
            Err(e) => dec_usizes(ws@.skip(pos as int), n as int) is None && e
                == CacheError::Malformed,
        },
{
    let mut out: Vec<usize> = Vec::new();
    let mut cur = pos;
    let mut i: usize = 0;
    while i < n
        invariant
            i <= n,
            cur <= ws@.len(),
            ({
                match dec_usizes(ws@.skip(cur as int), n - i) {
                    Some((tail, rem)) => dec_usizes(ws@.skip(pos as int), n as int) == Some(
                        (out@ + tail, rem),
                    ),
                    None => dec_usizes(ws@.skip(pos as int), n as int) is None,
                }
            }),
        decreases n - i,
    {
        match read_usize(ws, cur) {
            Ok((x, p2)) => {
                let ghost outpre = out@;
                out.push(x);
                proof {
                    match dec_usizes(ws@.skip(p2 as int), n - i - 1) {
                        Some((tail2, rem2)) => {
                            assert(dec_usizes(ws@.skip(cur as int), n - i) == Some(
                                ((seq![x] + tail2), rem2),
                            ));
                            assert(out@ + tail2 =~= outpre + (seq![x] + tail2));
                        },
                        None => {},
                    }
                }
                cur = p2;
                i = i + 1;
            },
            Err(e) => {
                proof {
                    assert(dec_usizes(ws@.skip(cur as int), n - i) is None);
                }
                return Err(e);
            },
        }
    }
    proof {
        assert(dec_usizes(ws@.skip(cur as int), 0) == Some(
            (Seq::<usize>::empty(), ws@.skip(cur as int)),
        ));
        assert(out@ + Seq::<usize>::empty() =~= out@);
    }
    Ok((out, cur))
}

fn read_projects(ws: &Vec<u64>, pos: usize, n: usize) -> (r: Result<
    (Vec<Project>, usize),
    CacheError,
>)
    requires
        pos <= ws@.len(),
    ensures
        match r {
            Ok(v) => {
                &&& dec_projs(ws@.skip(pos as int), n as int, 0) == Some(
                    (v.0@.map_values(|p: Project| p@), ws@.skip(v.1 as int)),
                )
                &&& v.0@.len() == n
                &&& forall|i: int| 0 <= i < v.0@.len() ==> (#[trigger] v.0@[i]).id == i
                &&& v.1 <= ws@.len()
            },
            Err(e) => dec_projs(ws@.skip(pos as int), n as int, 0) is None && e
                == CacheError::Malformed,
        },
{
    let mut out: Vec<Project> = Vec::new();
    let mut cur = pos;
    let mut i: usize = 0;
    while i < n
        invariant
            i <= n,
            cur <= ws@.len(),
            out@.len() == i,
            forall|j: int| 0 <= j < i ==> (#[trigger] out@[j]).id == j,
            ({
                match dec_projs(ws@.skip(cur as int), n - i, i as int) {
                    Some((tail, rem)) => dec_projs(ws@.skip(pos as int), n as int, 0) == Some(
                        (out@.map_values(|p: Project| p@) + tail, rem),
                    ),
                    None => dec_projs(ws@.skip(pos as int), n as int, 0) is None,
                }
            }),
        decreases n - i,
    {
        let (name, p1) = match read_string(ws, cur) {
            Ok(v) => v,
            Err(e) => {
                proof {
                    assert(dec_projs(ws@.skip(cur as int), n - i, i as int) is None);
                }
                return Err(e);
            },
        };
        let (nr, p2) = match read_usize(ws, p1) {
            Ok(v) => v,
            Err(e) => {
                proof {
                    assert(dec_projs(ws@.skip(cur as int), n - i, i as int) is None);
                }
                return Err(e);
            },
        };
        let (roles, p3) = match read_pairs(ws, p2, nr) {
            Ok(v) => v,
            Err(e) => {
                proof {
                    assert(dec_projs(ws@.skip(cur as int), n - i, i as int) is None);
                }
                return Err(e);
            },
        };
        let (days, p4) = match read_usize(ws, p3) {
            Ok(v) => v,
            Err(e) => {
                proof {
                    assert(dec_projs(ws@.skip(cur as int), n - i, i as int) is None);
                }
                return Err(e);
            },
        };
        let (sc, p5) = match read_usize(ws, p4) {
            Ok(v) => v,
            Err(e) => {
                proof {
                    assert(dec_projs(ws@.skip(cur as int), n - i, i as int) is None);
                }
                return Err(e);
            },
        };
        let (bb, p6) = match read_usize(ws, p5) {
            Ok(v) => v,
            Err(e) => {
                proof {
                    assert(dec_projs(ws@.skip(cur as int), n - i, i as int) is None);
                }
                return Err(e);
            },
        };
        let newp = Project {
            id: i,
            name,
            skills: roles,
            days_to_completion: days,
            score: sc,
            best_before: bb,
        };
        let ghost outpre = out@;
        out.push(newp);
        proof {
            assert(dec_proj(ws@.skip(cur as int), i as int) == Some(
                (out@.last()@, ws@.skip(p6 as int)),
            ));
            match dec_projs(ws@.skip(p6 as int), n - i - 1, i + 1) {
                Some((tail2, rem2)) => {
                    assert(dec_projs(ws@.skip(cur as int), n - i, i as int) == Some(
                        ((seq![out@.last()@] + tail2), rem2),
                    ));
                    assert(out@.map_values(|p: Project| p@) =~= outpre.map_values(
                        |p: Project| p@,
                    ).push(out@.last()@));
                    assert(out@.map_values(|p: Project| p@) + tail2 =~= outpre.map_values(
                        |p: Project| p@,
                    ) + (seq![out@.last()@] + tail2));
                },
                None => {},
            }
        }
        cur = p6;
        i = i + 1;
    }
    proof {
        assert(dec_projs(ws@.skip(cur as int), 0, n as int) == Some(
            (Seq::<ProjV>::empty(), ws@.skip(cur as int)),
        ));
        assert(out@.map_values(|p: Project| p@) + Seq::<ProjV>::empty() =~= out@.map_values(
            |p: Project| p@,
        ));
    }
    Ok((out, cur))
}

fn read_pairs(ws: &Vec<u64>, pos: usize, n: usize) -> (r: Result<
    (Vec<(usize, usize)>, usize),
    CacheError,
>)
    requires
        pos <= ws@.len(),
    ensures
        match r {
            Ok(v) => {
                &&& dec_pairs(ws@.skip(pos as int), n as int) == Some(
                    (v.0@, ws@.skip(v.1 as int)),
                )
                &&& v.1 <= ws@.len()
            },
            Err(e) => dec_pairs(ws@.skip(pos as int), n as int) is None && e
                == CacheError::Malformed,
        },
{
    let mut out: Vec<(usize, usize)> = Vec::new();
    let mut cur = pos;
    let mut i: usize = 0;
    while i < n
        invariant
            i <= n,
            cur <= ws@.len(),
            ({
                match dec_pairs(ws@.skip(cur as int), n - i) {
                    Some((tail, rem)) => dec_pairs(ws@.skip(pos as int), n as int) == Some(
                        (out@ + tail, rem),
                    ),
                    None => dec_pairs(ws@.skip(pos as int), n as int) is None,
                }
            }),
        decreases n - i,
    {
        let (a, p1) = match read_usize(ws, cur) {
            Ok(v) => v,
            Err(e) => {
                proof {
                    assert(dec_pairs(ws@.skip(cur as int), n - i) is None);
                }
                return Err(e);
            },
        };
        let (b, p2) = match read_usize(ws, p1) {
            Ok(v) => v,
            Err(e) => {
                proof {
                    assert(dec_pairs(ws@.skip(cur as int), n - i) is None);
                }
                return Err(e);
            },
        };
        let ghost outpre = out@;
        out.push((a, b));
        proof {
            assert(dec_pair(ws@.skip(cur as int)) == Some(((a, b), ws@.skip(p2 as int))));
            match dec_pairs(ws@.skip(p2 as int), n - i - 1) {
                Some((tail2, rem2)) => {
                    assert(dec_pairs(ws@.skip(cur as int), n - i) == Some(
                        ((seq![(a, b)] + tail2), rem2),
                    ));
                    assert(out@ + tail2 =~= outpre + (seq![(a, b)] + tail2));
                },
                None => {},
            }
        }
        cur = p2;
        i = i + 1;
    }
    proof {
        assert(dec_pairs(ws@.skip(cur as int), 0) == Some(
            (Seq::<(usize, usize)>::empty(), ws@.skip(cur as int)),
        ));
        assert(out@ + Seq::<(usize, usize)>::empty() =~= out@);
    }
    Ok((out, cur))
}

fn names_distinct(t: &Vec<String>) -> (r: bool)
    ensures
        r == distinct(names_of(t@)),
{
    let n = t.len();
    for i in 0..n
        invariant
            n == t@.len(),
            forall|a: int, b: int| 0 <= a < b < i ==> names_of(t@)[a] != names_of(t@)[b],
    {
        for j in 0..i
            invariant
                n == t@.len(),
                i < n,
                forall|a: int, b: int| 0 <= a < b < i ==> names_of(t@)[a] != names_of(t@)[b],
                forall|b: int| 0 <= b < j ==> names_of(t@)[b] != names_of(t@)[i as int],
        {
            if t[j].eq(&t[i]) {
                proof {
                    assert(names_of(t@)[j as int] == names_of(t@)[i as int]);
                }
                return false;
            }
        }
    }
    true
}

fn keys_distinct(lm: &LevelMap) -> (r: bool)
    ensures
        r == distinct_keys(lm@),
{
    let n = lm.entries.len();
    for i in 0..n
        invariant
            n == lm@.len(),
            forall|a: int, b: int| 0 <= a < b < i ==> lkey(lm@[a]) != lkey(lm@[b]),
    {
        for j in 0..i
            invariant
                n == lm@.len(),
                i < n,
                forall|a: int, b: int| 0 <= a < b < i ==> lkey(lm@[a]) != lkey(lm@[b]),
                forall|b: int| 0 <= b < j ==> lkey(lm@[b]) != lkey(lm@[i as int]),
        {
            let x = lm.entries[j];
            let y = lm.entries[i];
            if x.0 == y.0 && x.1 == y.1 {
                proof {
                    assert(lkey(lm@[j as int]) == lkey(lm@[i as int]));
                }
                return false;
            }
        }
    }
    true
}

/// Decode a persisted baseline. Accepts exactly the blobs `spec_decode`
/// accepts: the right version word, a structurally complete image with
/// nothing left over, and a well-formed baseline.
#[verifier::rlimit(100)]
pub fn decode_baseline(bytes: &Vec<u8>) -> (r: Result<Baseline, CacheError>)
    ensures
        match r {
            Ok(b) => spec_decode(bytes@) == Some(b@) && wf_baseline(b@),
            Err(e) => spec_decode(bytes@) is None && e == spec_cache_err(bytes@),
        },
{
    let ws = match bytes_to_words(bytes) {
        Ok(w) => w,
        Err(e) => {
            return Err(e);
        },
    };
    if ws.len() == 0 {
        proof {
            assert(dec_word(ws@) is None);
        }
        return Err(CacheError::Malformed);
    }
    let ver = ws[0];
    proof {
        assert(ws@.first() == ws@[0]);
        assert(ws@.drop_first() =~= ws@.skip(1));
    }
    if ver != CACHE_VERSION {
        return Err(CacheError::WrongVersion);
    }
    let (nct, q1) = match read_usize(&ws, 1) {
        Ok(v) => v,
        Err(e) => {
            return Err(e);
        },
    };
    let (ctbl, q2) = match read_strings(&ws, q1, nct) {
        Ok(v) => v,
        Err(e) => {
            return Err(e);
        },
    };
    let (npt, q3) = match read_usize(&ws, q2) {
        Ok(v) => v,
        Err(e) => {
            return Err(e);
        },
    };
    let (ptbl, q4) = match read_strings(&ws, q3, npt) {
        Ok(v) => v,
        Err(e) => {
            return Err(e);
        },
    };
    let (nst, q5) = match read_usize(&ws, q4) {
        Ok(v) => v,
        Err(e) => {
            return Err(e);
        },
    };
    let (stbl, q6) = match read_strings(&ws, q5, nst) {
        Ok(v) => v,
        Err(e) => {
            return Err(e);
        },
    };
    let (nlv, q7) = match read_usize(&ws, q6) {
        Ok(v) => v,
        Err(e) => {
            return Err(e);
        },
    };
    let (lvls, q8) = match read_levels(&ws, q7, nlv) {
        Ok(v) => v,
        Err(e) => {
            return Err(e);
        },
    };
    let (ncs, q9) = match read_usize(&ws, q8) {
        Ok(v) => v,
        Err(e) => {
            return Err(e);
        },
    };
    let (contributors, q10) = match read_contributors(&ws, q9, ncs) {
        Ok(v) => v,
        Err(e) => {
            return Err(e);
        },
    };
    let (nps, q11) = match read_usize(&ws, q10) {
        Ok(v) => v,
        Err(e) => {
            return Err(e);
        },
    };
    let (projects, q12) = match read_projects(&ws, q11, nps) {
        Ok(v) => v,
        Err(e) => {
            return Err(e);
        },
    };
    if q12 != ws.len() {
        proof {
            assert(ws@.skip(q12 as int).len() != 0);
        }
        return Err(CacheError::Malformed);
    }
    let ok_wf = names_distinct(&ctbl) && names_distinct(&ptbl) && names_distinct(&stbl)
        && keys_distinct(&lvls) && ctbl.len() == contributors.len();
    let b = Baseline {
        precomputed: PreComputed {
            contributors_id: ctbl,
            projects_id: ptbl,
            skills_id: stbl,
            levels: lvls,
        },
        contributors,
        projects,
    };
    proof {
        assert(ws@.skip(q12 as int).len() == 0);
        assert forall|i: int| 0 <= i < b@.contributors.len() implies (
        #[trigger] b@.contributors[i]).id == i by {
            assert(b@.contributors[i] == b.contributors@[i]@);
        }
        assert forall|i: int| 0 <= i < b@.projects.len() implies (#[trigger] b@.projects[i]).id
            == i by {
            assert(b@.projects[i] == b.projects@[i]@);
        }
    }
    if !ok_wf {
        proof {
            assert(!wf_baseline(b@));
            assert(dec_baseline_words(ws@) is None);
        }
        return Err(CacheError::Malformed);
    }
    proof {
        assert(wf_baseline(b@));
        assert(dec_baseline_words(ws@) == Some(b@));
    }
    Ok(b)
}

} // verus!
