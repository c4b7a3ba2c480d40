use vstd::prelude::*;
use vstd::std_specs::iter::IteratorSpec;

verus! {

broadcast use vstd::string::group_string_axioms;

/// Appends one character to a string.
///
/// Relies on `String::push`, which appends the given character at the end.
#[verifier::external_body]
pub(crate) fn push_char(s: &mut String, c: char)
    ensures
        final(s)@ == old(s)@.push(c),
{
    s.push(c)
}

/// The characters of `s`, in order.
pub fn chars_of(s: &str) -> (r: Vec<char>)
    ensures
        r@ == s@,
{
    let mut r: Vec<char> = Vec::new();
    for c in it: s.chars()
        invariant
            it.seq() == s@,
            r@ == it.seq().take(it.index() as int),
    {
        r.push(c);
    }
    r
}

/// The character sequences held by a sequence of character vectors.
pub open spec fn views(v: Seq<Vec<char>>) -> Seq<Seq<char>> {
    v.map_values(|x: Vec<char>| x@)
}

/// `parts` written out with `sep` between neighbours.
pub open spec fn join(parts: Seq<Seq<char>>, sep: char) -> Seq<char>
    decreases parts.len(),
{
    if parts.len() == 0 {
        Seq::empty()
    } else if parts.len() == 1 {
        parts[0]
    } else {
        join(parts.drop_last(), sep).push(sep) + parts.last()
    }
}

/// `d` occurs in `s` at index `i`.
pub open spec fn occurs_at(s: Seq<char>, d: Seq<char>, i: int) -> bool {
    0 <= i && i + d.len() <= s.len() && s.subrange(i, i + d.len()) == d
}

pub open spec fn occurs_in(s: Seq<char>, d: Seq<char>) -> bool {
    exists|i: int| occurs_at(s, d, i)
}

/// The pieces of `s` from `st` on, cut at each occurrence of the non-empty `d`
/// found by a left-to-right scan that is now at `i`; occurrences do not overlap.
pub open spec fn split_scan(s: Seq<char>, d: Seq<char>, st: int, i: int) -> Seq<Seq<char>>
    decreases s.len() - i,
{
    if d.len() == 0 || i < 0 || i + d.len() > s.len() {
        seq![s.subrange(st, s.len() as int)]
    } else if s.subrange(i, i + d.len()) == d {
        seq![s.subrange(st, i)] + split_scan(s, d, i + d.len(), i + d.len())
    } else {
        split_scan(s, d, st, i + 1)
    }
}

/// The pieces of `s` between occurrences of `d`. An empty `d` occurs at every
/// character boundary, the two ends included.
pub open spec fn split_by(s: Seq<char>, d: Seq<char>) -> Seq<Seq<char>> {
    if d.len() == 0 {
        seq![Seq::empty()] + s.map_values(|c: char| seq![c]) + seq![Seq::empty()]
    } else {
        split_scan(s, d, 0, 0)
    }
}

proof fn lemma_split_scan_count(s: Seq<char>, d: Seq<char>, st: int, i: int)
    requires
        d.len() > 0,
        0 <= i,
    ensures
        split_scan(s, d, st, i).len() >= 1,
        split_scan(s, d, st, i).len() > 1 <==> exists|j: int| j >= i && occurs_at(s, d, j),
    decreases s.len() - i,
{
    if i + d.len() > s.len() {
        assert forall|j: int| j >= i implies !occurs_at(s, d, j) by {};
    } else if s.subrange(i, i + d.len()) == d {
        lemma_split_scan_count(s, d, i + d.len(), i + d.len());
        assert(occurs_at(s, d, i));
    } else {
        lemma_split_scan_count(s, d, st, i + 1);
        if exists|j: int| j >= i && occurs_at(s, d, j) {
            let j = choose|j: int| j >= i && occurs_at(s, d, j);
            assert(j != i);
        }
    }
}

/// An empty string occurs in every string; otherwise `d` occurs in `s` exactly
/// when splitting `s` at `d` gives more than one piece.
pub proof fn lemma_occurs_iff_split(s: Seq<char>, d: Seq<char>)
    ensures
        split_by(s, d).len() >= 1,
        d.len() == 0 ==> occurs_in(s, d),
        d.len() > 0 ==> (occurs_in(s, d) <==> split_by(s, d).len() > 1),
{
    if d.len() == 0 {
        assert(s.subrange(0, 0) =~= d);
        assert(occurs_at(s, d, 0));
    } else {
        lemma_split_scan_count(s, d, 0, 0);
    }
}

/// Whether `d` occurs in `s` at index `i`.
fn occurs_at_exec(s: &Vec<char>, d: &Vec<char>, i: usize) -> (r: bool)
    requires
        i + d@.len() <= s@.len(),
    ensures
        r == (s@.subrange(i as int, i + d@.len()) == d@),
{
    let n = s.len();
    let mut k: usize = 0;
    while k < d.len()
        invariant
            n == s@.len(),
            k <= d@.len(),
            i + d@.len() <= s@.len(),
            forall|j: int| 0 <= j < k ==> s@[i + j] == d@[j],
        decreases d@.len() - k,
    {
        if s[i + k] != d[k] {
            assert(s@.subrange(i as int, i + d@.len())[k as int] != d@[k as int]);
            return false;
        }
        k = k + 1;
    }
    assert(s@.subrange(i as int, i + d@.len()) =~= d@);
    true
}

/// Splits `s` at each occurrence of `d`, as `split_by` says.
pub fn split_chars(s: &Vec<char>, d: &Vec<char>) -> (r: Vec<Vec<char>>)
    ensures
        views(r@) == split_by(s@, d@),
{
    let mut out: Vec<Vec<char>> = Vec::new();
    if d.len() == 0 {
        out.push(Vec::new());
        let mut i: usize = 0;
        while i < s.len()
            invariant
                i <= s@.len(),
                views(out@) =~= seq![Seq::<char>::empty()] + s@.take(i as int).map_values(
                    |c: char| seq![c],
                ),
            decreases s@.len() - i,
        {
            let mut one: Vec<char> = Vec::new();
            one.push(s[i]);
            let ghost before = views(out@);
            out.push(one);
            assert(views(out@) =~= before.push(one@));
            assert(s@.take(i + 1).map_values(|c: char| seq![c]) =~= s@.take(i as int).map_values(
                |c: char| seq![c],
            ).push(seq![s@[i as int]]));
            i = i + 1;
        }
        out.push(Vec::new());
        assert(s@.take(i as int) =~= s@);
        assert(views(out@) =~= split_by(s@, d@));
        return out;
    }
    let mut cur: Vec<char> = Vec::new();
    let mut i: usize = 0;
    let ghost mut st: int = 0;
    while i < s.len() && d.len() <= s.len() - i
        invariant
            0 <= st <= i <= s@.len(),
            d@.len() > 0,
            cur@ == s@.subrange(st, i as int),
            views(out@) + split_scan(s@, d@, st, i as int) == split_scan(s@, d@, 0, 0),
        decreases s@.len() - i,
    {
        if occurs_at_exec(s, d, i) {
            let ghost rest = split_scan(s@, d@, i + d@.len(), i + d@.len());
            assert(views(out@.push(cur)) =~= views(out@).push(cur@));
            assert(views(out@) + split_scan(s@, d@, st, i as int) =~= views(out@).push(cur@)
                + rest);
            out.push(cur);
            cur = Vec::new();
            i = i + d.len();
            proof {
                st = i as int;
            }
            assert(cur@ =~= s@.subrange(st, i as int));
        } else {
            cur.push(s[i]);
            i = i + 1;
            assert(cur@ =~= s@.subrange(st, i as int));
        }
    }
    let ghost i0 = i;
    assert(split_scan(s@, d@, st, i0 as int) == seq![s@.subrange(st, s@.len() as int)]);
    while i < s.len()
        invariant
            0 <= st <= i0 <= i <= s@.len(),
            cur@ == s@.subrange(st, i as int),
        decreases s@.len() - i,
    {
        cur.push(s[i]);
        i = i + 1;
        assert(cur@ =~= s@.subrange(st, i as int));
    }
    let ghost before = views(out@);
    out.push(cur);
    assert(views(out@) =~= before.push(cur@));
    assert(views(out@) =~= before + split_scan(s@, d@, st, i0 as int));
    out
}

/// Appends the characters of `part` to `out`.
pub fn push_all(out: &mut String, part: &Vec<char>)
    ensures
        final(out)@ == old(out)@ + part@,
{
    let mut k: usize = 0;
    while k < part.len()
        invariant
            k <= part@.len(),
            out@ == old(out)@ + part@.take(k as int),
        decreases part@.len() - k,
    {
        push_char(out, part[k]);
        assert(part@.take(k + 1) =~= part@.take(k as int).push(part@[k as int]));
        k = k + 1;
    }
    assert(part@.take(k as int) =~= part@);
}

/// The string that holds the characters of `v`.
pub fn string_of(v: &Vec<char>) -> (r: String)
    ensures
        r@ == v@,
{
    let mut r = String::new();
    push_all(&mut r, v);
    r
}

/// The characters of `v` from index `from` on.
pub fn chars_from(v: &Vec<char>, from: usize) -> (r: Vec<char>)
    requires
        from <= v@.len(),
    ensures
        r@ == v@.skip(from as int),
{
    let mut r: Vec<char> = Vec::new();
    let mut k: usize = from;
    while k < v.len()
        invariant
            from <= k <= v@.len(),
            r@ == v@.subrange(from as int, k as int),
        decreases v@.len() - k,
    {
        r.push(v[k]);
        assert(v@.subrange(from as int, k + 1) =~= v@.subrange(from as int, k as int).push(
            v@[k as int],
        ));
        k = k + 1;
    }
    assert(v@.subrange(from as int, k as int) =~= v@.skip(from as int));
    r
}

/// Writes `parts` out with `sep` between neighbours.
pub fn join_chars(parts: &Vec<Vec<char>>, sep: char) -> (r: String)
    ensures
        r@ == join(views(parts@), sep),
{
    let mut r = String::new();
    let mut k: usize = 0;
    while k < parts.len()
        invariant
            k <= parts@.len(),
            r@ == join(views(parts@.take(k as int)), sep),
        decreases parts@.len() - k,
    {
        let ghost prev = views(parts@.take(k as int));
        let ghost next = views(parts@.take(k + 1));
        assert(next =~= prev.push(parts@[k as int]@));
        assert(next.drop_last() =~= prev);
        if k > 0 {
            push_char(&mut r, sep);
        } else {
            assert(r@ =~= Seq::<char>::empty());
        }
        push_all(&mut r, &parts[k]);
        k = k + 1;
    }
    assert(parts@.take(k as int) =~= parts@);
    r
}

} // verus!
