//! Projection of one line onto selected fields, characters, bytes or
//! grapheme clusters.
use unicode_segmentation::UnicodeSegmentation;
use vstd::prelude::*;
use vstd::seq_lib::*;
use vstd::utf8::*;

use crate::text::{chars_from, chars_of, join, join_chars, lemma_occurs_iff_split, occurs_in, split_by, split_chars, views};

verus! {

broadcast use vstd::string::group_string_axioms, vstd::seq::group_seq_axioms;

/// The token that stands for a field that the line does not have.
pub open spec fn placeholder() -> Seq<char> {
    seq![' ']
}

/// For each position `p` (counted from one), the `p`-th piece, or the
/// placeholder where there is none.
pub open spec fn field_tokens(pieces: Seq<Seq<char>>, positions: Seq<u64>) -> Seq<Seq<char>> {
    positions.map_values(
        |p: u64|
            if 1 <= p && p <= pieces.len() {
                pieces[p - 1]
            } else {
                placeholder()
            },
    )
}

/// What field mode makes of `line`: nothing where `suppress` is set and the
/// delimiter does not occur in the line; else the selected fields joined by tabs.
pub open spec fn field_line(
    line: Seq<char>,
    delimiter: Seq<char>,
    suppress: bool,
    positions: Seq<u64>,
) -> Option<Seq<char>> {
    if suppress && !occurs_in(line, delimiter) {
        None
    } else {
        Some(join(field_tokens(split_by(line, delimiter), positions), '\t'))
    }
}

/// Selects the fields of `line` at `positions`, as `field_line` says.
pub fn select_fields(line: &str, delimiter: &str, suppress: bool, positions: &Vec<u64>) -> (r:
    Option<String>)
    ensures
        r matches Some(s) ==> field_line(line@, delimiter@, suppress, positions@) == Some(s@),
        r is None ==> field_line(line@, delimiter@, suppress, positions@) is None,
{
    let cs = chars_of(line);
    let ds = chars_of(delimiter);
    let pieces = split_chars(&cs, &ds);
    proof {
        lemma_occurs_iff_split(line@, delimiter@);
    }
    if suppress && ds.len() > 0 && pieces.len() == 1 {
        return None;
    }
    let ghost pv = views(pieces@);
    assert(!(suppress && !occurs_in(line@, delimiter@)));
    let mut tokens: Vec<Vec<char>> = Vec::new();
    let mut k: usize = 0;
    while k < positions.len()
        invariant
            k <= positions@.len(),
            pv == views(pieces@),
            views(tokens@) =~= field_tokens(pv, positions@.take(k as int)),
        decreases positions@.len() - k,
    {
        let p = positions[k];
        let ghost before = views(tokens@);
        if p >= 1 && p - 1 < pieces.len() as u64 {
            let piece = chars_from(&pieces[(p - 1) as usize], 0);
            assert(piece@ =~= pv[p - 1]);
            tokens.push(piece);
        } else {
            let mut pad: Vec<char> = Vec::new();
            pad.push(' ');
            tokens.push(pad);
        }
        assert(views(tokens@) =~= before.push(views(tokens@).last()));
        assert(positions@.take(k + 1) =~= positions@.take(k as int).push(p));
        k = k + 1;
    }
    assert(positions@.take(k as int) =~= positions@);
    Some(join_chars(&tokens, '\t'))
}

/// For each position `p` (counted from zero) that the line has, its character
/// as a token of its own; positions past the end are skipped.
pub open spec fn char_tokens(line: Seq<char>, positions: Seq<u64>) -> Seq<Seq<char>>
    decreases positions.len(),
{
    if positions.len() == 0 {
        Seq::empty()
    } else {
        let prev = char_tokens(line, positions.drop_last());
        let p = positions.last();
        if p < line.len() {
            prev.push(seq![line[p as int]])
        } else {
            prev
        }
    }
}

/// Selects the characters of `line` at `positions`, joined by tabs.
pub fn select_chars(line: &str, positions: &Vec<u64>) -> (r: String)
    ensures
        r@ == join(char_tokens(line@, positions@), '\t'),
{
    let cs = chars_of(line);
    let mut tokens: Vec<Vec<char>> = Vec::new();
    let mut k: usize = 0;
    while k < positions.len()
        invariant
            k <= positions@.len(),
            cs@ == line@,
            views(tokens@) =~= char_tokens(line@, positions@.take(k as int)),
        decreases positions@.len() - k,
    {
        let p = positions[k];
        assert(positions@.take(k + 1).drop_last() =~= positions@.take(k as int));
        if p < cs.len() as u64 {
            let mut one: Vec<char> = Vec::new();
            one.push(cs[p as usize]);
            let ghost before = views(tokens@);
            tokens.push(one);
            assert(views(tokens@) =~= before.push(one@));
        }
        k = k + 1;
    }
    assert(positions@.take(k as int) =~= positions@);
    join_chars(&tokens, '\t')
}

/// The character whose scalar value is the byte `b`.
pub open spec fn byte_char(b: u8) -> char {
    (b as u32) as char
}

/// Every position lies before `n`.
pub open spec fn all_below(positions: Seq<u64>, n: nat) -> bool {
    forall|i: int| 0 <= i < positions.len() ==> #[trigger] positions[i] < n
}

/// For each position `p` (counted from zero), the byte at `p` read as a
/// character.
pub open spec fn byte_tokens(bytes: Seq<u8>, positions: Seq<u64>) -> Seq<Seq<char>> {
    positions.map_values(|p: u64| seq![byte_char(bytes[p as int])])
}

/// Whether every position lies within the UTF-8 encoding of `line`.
pub fn positions_fit(line: &str, positions: &Vec<u64>) -> (r: bool)
    ensures
        r == all_below(positions@, encode_utf8(line@).len()),
{
    let n = line.as_bytes().len();
    let mut k: usize = 0;
    while k < positions.len()
        invariant
            k <= positions@.len(),
            n == encode_utf8(line@).len(),
            all_below(positions@.take(k as int), n as nat),
        decreases positions@.len() - k,
    {
        if positions[k] >= n as u64 {
            assert(positions@[k as int] >= n);
            return false;
        }
        assert(positions@.take(k + 1)[k as int] == positions@[k as int]);
        k = k + 1;
    }
    assert(positions@.take(k as int) =~= positions@);
    true
}

/// Selects the bytes of `line` at `positions`, each read as a character,
/// joined by spaces.
pub fn select_bytes(line: &str, positions: &Vec<u64>) -> (r: String)
    requires
        all_below(positions@, encode_utf8(line@).len()),
    ensures
        r@ == join(byte_tokens(encode_utf8(line@), positions@), ' '),
{
    let bytes = line.as_bytes();
    let mut tokens: Vec<Vec<char>> = Vec::new();
    let mut k: usize = 0;
    while k < positions.len()
        invariant
            k <= positions@.len(),
            bytes@ == encode_utf8(line@),
            all_below(positions@, encode_utf8(line@).len()),
            views(tokens@) =~= byte_tokens(bytes@, positions@.take(k as int)),
        decreases positions@.len() - k,
    {
        let p = positions[k];
        assert(p < bytes@.len());
        let b = bytes[p as usize];
        let mut one: Vec<char> = Vec::new();
        one.push(b as char);
        let ghost before = views(tokens@);
        tokens.push(one);
        assert(views(tokens@) =~= before.push(one@));
        assert(positions@.take(k + 1) =~= positions@.take(k as int).push(p));
        k = k + 1;
    }
    assert(positions@.take(k as int) =~= positions@);
    join_chars(&tokens, ' ')
}

/// The extended grapheme clusters of a string, in order.
pub uninterp spec fn grapheme_clusters(s: Seq<char>) -> Seq<Seq<char>>;

/// The character sequences held by a sequence of strings.
pub open spec fn string_views(v: Seq<String>) -> Seq<Seq<char>> {
    v.map_values(|g: String| g@)
}

/// Relies on `UnicodeSegmentation::graphemes(s, true)` of unicode_segmentation:
/// the extended grapheme clusters of `s`, left to right. Its iterator hands out
/// consecutive slices of `s` from the start to the end, so the clusters
/// together spell `s`.
#[verifier::external_body]
fn graphemes_of(s: &str) -> (r: Vec<String>)
    ensures
        string_views(r@) == grapheme_clusters(s@),
        string_views(r@).flatten() == s@,
{
    s.graphemes(true).map(|g| g.to_string()).collect()
}

/// The byte offset at which the cluster after `clusters` starts.
pub open spec fn byte_offset(clusters: Seq<Seq<char>>) -> nat {
    encode_utf8(clusters.flatten()).len()
}

/// Cluster `k` of `clusters` holds byte position `p`.
pub open spec fn holds_byte(clusters: Seq<Seq<char>>, k: int, p: int) -> bool {
    &&& 0 <= k < clusters.len()
    &&& byte_offset(clusters.take(k)) <= p < byte_offset(clusters.take(k + 1))
}

/// The cluster that holds byte position `p`, as a one-element sequence; an
/// empty sequence where no cluster holds it.
pub open spec fn cluster_at(clusters: Seq<Seq<char>>, p: int) -> Seq<Seq<char>> {
    if exists|k: int| holds_byte(clusters, k, p) {
        seq![clusters[choose|k: int| holds_byte(clusters, k, p)]]
    } else {
        Seq::empty()
    }
}

/// Position by position, in the order given, the whole cluster that holds
/// it; positions past the end give nothing.
pub open spec fn cluster_tokens(clusters: Seq<Seq<char>>, positions: Seq<u64>) -> Seq<Seq<char>>
    decreases positions.len(),
{
    if positions.len() == 0 {
        Seq::empty()
    } else {
        cluster_tokens(clusters, positions.drop_last()) + cluster_at(
            clusters,
            positions.last() as int,
        )
    }
}

pub proof fn lemma_encode_utf8_concat(a: Seq<char>, b: Seq<char>)
    ensures
        encode_utf8(a + b) == encode_utf8(a) + encode_utf8(b),
    decreases a.len(),
{
    if a.len() == 0 {
        assert(a + b =~= b);
        assert(encode_utf8(a) + encode_utf8(b) =~= encode_utf8(b));
    } else {
        assert((a + b).drop_first() =~= a.drop_first() + b);
        lemma_encode_utf8_concat(a.drop_first(), b);
        assert(encode_utf8(a + b) =~= encode_utf8(a) + encode_utf8(b));
    }
}

proof fn lemma_byte_offset_push(clusters: Seq<Seq<char>>)
    requires
        clusters.len() > 0,
    ensures
        byte_offset(clusters) == byte_offset(clusters.drop_last()) + encode_utf8(
            clusters.last(),
        ).len(),
{
    assert(clusters =~= clusters.drop_last().push(clusters.last()));
    clusters.drop_last().lemma_flatten_push(clusters.last());
    lemma_encode_utf8_concat(clusters.drop_last().flatten(), clusters.last());
}

proof fn lemma_byte_offset_prefix(clusters: Seq<Seq<char>>, k: int)
    requires
        0 <= k <= clusters.len(),
    ensures
        byte_offset(clusters.take(k)) <= byte_offset(clusters),
{
    assert(clusters =~= clusters.take(k) + clusters.skip(k));
    lemma_flatten_concat(clusters.take(k), clusters.skip(k));
    lemma_encode_utf8_concat(clusters.take(k).flatten(), clusters.skip(k).flatten());
}

proof fn lemma_holds_byte_unique(clusters: Seq<Seq<char>>, k: int, j: int, p: int)
    requires
        holds_byte(clusters, k, p),
        holds_byte(clusters, j, p),
    ensures
        k == j,
{
    if k < j {
        assert(clusters.take(j).take(k + 1) =~= clusters.take(k + 1));
        lemma_byte_offset_prefix(clusters.take(j), k + 1);
    } else if j < k {
        assert(clusters.take(k).take(j + 1) =~= clusters.take(j + 1));
        lemma_byte_offset_prefix(clusters.take(k), j + 1);
    }
}

proof fn lemma_cluster_at(clusters: Seq<Seq<char>>, k: int, p: int)
    requires
        holds_byte(clusters, k, p),
    ensures
        cluster_at(clusters, p) == seq![clusters[k]],
{
    let j = choose|j: int| holds_byte(clusters, j, p);
    lemma_holds_byte_unique(clusters, k, j, p);
}

/// Positions that all fall inside the byte range of cluster `k` select that
/// whole cluster, once per position: no part of a cluster is ever selected
/// alone, and repeated hits repeat the cluster.
pub proof fn lemma_positions_in_one_cluster(
    clusters: Seq<Seq<char>>,
    k: int,
    positions: Seq<u64>,
)
    requires
        0 <= k < clusters.len(),
        forall|i: int|
            0 <= i < positions.len() ==> byte_offset(clusters.take(k)) <= #[trigger] positions[i]
                < byte_offset(clusters.take(k + 1)),
    ensures
        cluster_tokens(clusters, positions) == Seq::new(
            positions.len(),
            |i: int| clusters[k],
        ),
    decreases positions.len(),
{
    if positions.len() > 0 {
        let prev = positions.drop_last();
        assert forall|i: int| 0 <= i < prev.len() implies byte_offset(clusters.take(k))
            <= #[trigger] prev[i] < byte_offset(clusters.take(k + 1)) by {
            assert(prev[i] == positions[i]);
        };
        lemma_positions_in_one_cluster(clusters, k, prev);
        assert(holds_byte(clusters, k, positions.last() as int));
        lemma_cluster_at(clusters, k, positions.last() as int);
        assert(cluster_tokens(clusters, positions) =~= Seq::new(
            positions.len(),
            |i: int| clusters[k],
        ));
    }
}

/// Selects, for each position in turn, the whole grapheme cluster whose byte
/// range holds it; the clusters are joined by spaces.
pub fn select_clusters(line: &str, positions: &Vec<u64>) -> (r: String)
    ensures
        r@ == join(cluster_tokens(grapheme_clusters(line@), positions@), ' '),
        grapheme_clusters(line@).flatten() == line@,
{
    let gs = graphemes_of(line);
    let total = line.as_bytes().len();
    assert(byte_offset(string_views(gs@)) == total);
    pick_clusters(&gs, positions)
}

/// The index of the cluster that holds byte position `p`, if any.
fn cluster_index(gs: &Vec<String>, p: u64) -> (r: Option<usize>)
    requires
        byte_offset(string_views(gs@)) <= usize::MAX,
    ensures
        r matches Some(k) ==> holds_byte(string_views(gs@), k as int, p as int),
        r is None ==> forall|k: int| !holds_byte(string_views(gs@), k, p as int),
{
    let ghost g = string_views(gs@);
    let mut start: usize = 0;
    let mut k: usize = 0;
    assert(g.take(0) =~= Seq::<Seq<char>>::empty());
    while k < gs.len()
        invariant
            k <= gs@.len(),
            g == string_views(gs@),
            byte_offset(g) <= usize::MAX,
            start == byte_offset(g.take(k as int)),
            forall|i: int| 0 <= i < k ==> !holds_byte(g, i, p as int),
        decreases gs@.len() - k,
    {
        let w = gs[k].as_str().len();
        let ghost next = g.take(k + 1);
        proof {
            assert(next =~= g.take(k as int).push(g[k as int]));
            assert(next.drop_last() =~= g.take(k as int));
            lemma_byte_offset_push(next);
            lemma_byte_offset_prefix(g, k + 1);
        }
        let end = start + w;
        if start as u64 <= p && p < end as u64 {
            return Some(k);
        }
        start = end;
        k = k + 1;
    }
    None
}

/// Given the grapheme clusters of a line, selects for each position in turn
/// the whole cluster whose byte range holds it; the clusters are joined by
/// spaces.
pub fn pick_clusters(gs: &Vec<String>, positions: &Vec<u64>) -> (r: String)
    requires
        byte_offset(string_views(gs@)) <= usize::MAX,
    ensures
        r@ == join(cluster_tokens(string_views(gs@), positions@), ' '),
{
    let ghost g = string_views(gs@);
    let mut tokens: Vec<Vec<char>> = Vec::new();
    let mut j: usize = 0;
    while j < positions.len()
        invariant
            j <= positions@.len(),
            g == string_views(gs@),
            byte_offset(g) <= usize::MAX,
            views(tokens@) =~= cluster_tokens(g, positions@.take(j as int)),
        decreases positions@.len() - j,
    {
        let p = positions[j];
        assert(positions@.take(j + 1).drop_last() =~= positions@.take(j as int));
        let ghost before = views(tokens@);
        match cluster_index(gs, p) {
            Some(k) => {
                proof {
                    lemma_cluster_at(g, k as int, p as int);
                }
                let piece = chars_of(gs[k].as_str());
                tokens.push(piece);
                assert(views(tokens@) =~= before.push(piece@));
            },
            None => {
                assert(cluster_at(g, p as int) =~= Seq::<Seq<char>>::empty());
            },
        }
        j = j + 1;
    }
    assert(positions@.take(j as int) =~= positions@);
    join_chars(&tokens, ' ')
}

} // verus!
