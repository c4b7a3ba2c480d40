//! Parsing of position lists such as `1,3-5,7`.
use vstd::prelude::*;
use vstd::seq_lib::*;

use crate::text::chars_of;

verus! {

broadcast use vstd::seq_lib::group_to_multiset_ensures, vstd::seq::group_seq_axioms;

/// Characters that end a token of a position list.
pub open spec fn is_separator(c: char) -> bool {
    c == ',' || c == ' '
}

/// The tokens of a position list: the runs of characters between separators,
/// left to right, empty runs included.
pub open spec fn list_tokens(s: Seq<char>) -> Seq<Seq<char>>
    decreases s.len(),
{
    if s.len() == 0 {
        seq![Seq::empty()]
    } else {
        let prev = list_tokens(s.drop_last());
        if is_separator(s.last()) {
            prev.push(Seq::empty())
        } else {
            prev.drop_last().push(prev.last().push(s.last()))
        }
    }
}

pub open spec fn is_digit(c: char) -> bool {
    '0' <= c && c <= '9'
}

pub open spec fn digit_of(c: char) -> nat {
    (c as u32 - '0' as u32) as nat
}

/// The number that a run of decimal digits spells.
pub open spec fn digits_value(t: Seq<char>) -> nat
    decreases t.len(),
{
    if t.len() == 0 {
        0
    } else {
        digits_value(t.drop_last()) * 10 + digit_of(t.last())
    }
}

/// The digits of an unsigned literal, after an optional leading `+`.
pub open spec fn unsigned_digits(t: Seq<char>) -> Seq<char> {
    if t.len() > 0 && t[0] == '+' {
        t.drop_first()
    } else {
        t
    }
}

/// The unsigned 64-bit integer that `t` spells in decimal, if any: one or
/// more digits after an optional `+`, with a value that fits in 64 bits.
pub open spec fn decimal(t: Seq<char>) -> Option<u64> {
    let d = unsigned_digits(t);
    if d.len() > 0 && (forall|i: int| 0 <= i < d.len() ==> is_digit(#[trigger] d[i]))
        && digits_value(d) <= u64::MAX {
        Some(digits_value(d) as u64)
    } else {
        None
    }
}

/// The characters that Unicode gives the White_Space property.
pub open spec fn is_white(c: char) -> bool {
    let u = c as u32;
    ||| 0x09 <= u <= 0x0d
    ||| u == 0x20
    ||| u == 0x85
    ||| u == 0xa0
    ||| u == 0x1680
    ||| 0x2000 <= u <= 0x200a
    ||| u == 0x2028
    ||| u == 0x2029
    ||| u == 0x202f
    ||| u == 0x205f
    ||| u == 0x3000
}

/// `t` without its leading white space.
pub open spec fn trim_start(t: Seq<char>) -> Seq<char>
    decreases t.len(),
{
    if t.len() > 0 && is_white(t[0]) {
        trim_start(t.drop_first())
    } else {
        t
    }
}

/// `t` without its trailing white space.
pub open spec fn trim_end(t: Seq<char>) -> Seq<char>
    decreases t.len(),
{
    if t.len() > 0 && is_white(t.last()) {
        trim_end(t.drop_last())
    } else {
        t
    }
}

/// The number that `t` spells once surrounding white space is removed.
pub open spec fn number(t: Seq<char>) -> Option<u64> {
    decimal(trim_end(trim_start(t)))
}

/// `k` is the index of the first `-` in `t`.
pub open spec fn first_dash(t: Seq<char>, k: int) -> bool {
    &&& 0 <= k < t.len()
    &&& t[k] == '-'
    &&& forall|j: int| 0 <= j < k ==> t[j] != '-'
}

/// Every integer from `lo` to `hi` inclusive, zero left out.
pub open spec fn range_values(lo: u64, hi: u64) -> Seq<u64> {
    let start: int = if lo == 0 { 1 } else { lo as int };
    if hi < start {
        Seq::empty()
    } else {
        Seq::new((hi - start + 1) as nat, |i: int| (start + i) as u64)
    }
}

/// The positions that one token stands for. A token with a `-` is an
/// inclusive range split at its first `-`; any other token is a single
/// position. White space around a number is ignored. A token that does not
/// parse stands for nothing, and so does position zero.
pub open spec fn token_values(t: Seq<char>) -> Seq<u64> {
    if exists|k: int| first_dash(t, k) {
        let k = choose|k: int| first_dash(t, k);
        match (number(t.take(k)), number(t.skip(k + 1))) {
            (Some(lo), Some(hi)) => range_values(lo, hi),
            _ => Seq::empty(),
        }
    } else {
        match number(t) {
            Some(v) => if v == 0 {
                Seq::empty()
            } else {
                seq![v]
            },
            None => Seq::empty(),
        }
    }
}

/// The positions of a list, token by token, before sorting.
pub open spec fn expansion(s: Seq<char>) -> Seq<u64> {
    list_tokens(s).map_values(|t: Seq<char>| token_values(t)).flatten()
}

pub open spec fn sorted(s: Seq<u64>) -> bool {
    forall|i: int, j: int| 0 <= i <= j < s.len() ==> s[i] <= s[j]
}

pub open spec fn position_leq() -> spec_fn(u64, u64) -> bool {
    |a: u64, b: u64| a <= b
}

/// The positions that a list selects: those of `expansion`, in ascending order.
pub open spec fn selection(s: Seq<char>) -> Seq<u64> {
    expansion(s).sort_by(position_leq())
}

/// A sorted sequence with the same elements as `expansion(s)` is `selection(s)`.
proof fn lemma_selection_unique(r: Seq<u64>, s: Seq<char>)
    requires
        sorted(r),
        r.to_multiset() == expansion(s).to_multiset(),
    ensures
        r == selection(s),
{
    let leq = position_leq();
    assert(vstd::relations::total_ordering(leq));
    expansion(s).lemma_sort_by_ensures(leq);
    assert(vstd::relations::sorted_by(r, leq));
    lemma_sorted_unique(r, selection(s), leq);
}

proof fn lemma_list_tokens_nonempty(s: Seq<char>)
    ensures
        list_tokens(s).len() >= 1,
    decreases s.len(),
{
    if s.len() > 0 {
        lemma_list_tokens_nonempty(s.drop_last());
    }
}

proof fn lemma_digits_value_prefix(t: Seq<char>, i: int)
    requires
        0 <= i <= t.len(),
    ensures
        digits_value(t.take(i)) <= digits_value(t),
    decreases t.len(),
{
    if i < t.len() {
        assert(t.drop_last().take(i) =~= t.take(i));
        lemma_digits_value_prefix(t.drop_last(), i);
    } else {
        assert(t.take(i) =~= t);
    }
}

/// The value of the decimal literal `cs[lo..hi]`.
fn decimal_in(cs: &Vec<char>, lo: usize, hi: usize) -> (r: Option<u64>)
    requires
        lo <= hi <= cs@.len(),
    ensures
        r == decimal(cs@.subrange(lo as int, hi as int)),
{
    let ghost t = cs@.subrange(lo as int, hi as int);
    let mut start: usize = lo;
    if start < hi && cs[start] == '+' {
        start = start + 1;
    }
    let ghost d = cs@.subrange(start as int, hi as int);
    assert(d =~= unsigned_digits(t));
    if start == hi {
        return None;
    }
    let mut i: usize = start;
    let mut v: u64 = 0;
    while i < hi
        invariant
            start <= i <= hi <= cs@.len(),
            d == cs@.subrange(start as int, hi as int),
            t == cs@.subrange(lo as int, hi as int),
            d == unsigned_digits(t),
            d.len() > 0,
            forall|j: int| 0 <= j < i - start ==> is_digit(#[trigger] d[j]),
            v == digits_value(d.take(i - start)),
        decreases hi - i,
    {
        let c = cs[i];
        if !('0' <= c && c <= '9') {
            assert(!is_digit(d[i - start]));
            return None;
        }
        let dv = (c as u32 - '0' as u32) as u64;
        assert(d.take(i - start + 1).drop_last() =~= d.take(i - start));
        assert(digits_value(d.take(i - start + 1)) == v * 10 + dv);
        let m = v.checked_mul(10);
        let next = match m {
            Some(m) => m.checked_add(dv),
            None => None,
        };
        match next {
            Some(n) => {
                v = n;
            },
            None => {
                proof {
                    lemma_digits_value_prefix(d, i - start + 1);
                }
                return None;
            },
        }
        i = i + 1;
    }
    assert(d.take(i - start) =~= d);
    Some(v)
}

/// Whether `c` is white space.
fn is_white_exec(c: char) -> (r: bool)
    ensures
        r == is_white(c),
{
    let u = c as u32;
    (0x09 <= u && u <= 0x0d) || u == 0x20 || u == 0x85 || u == 0xa0 || u == 0x1680 || (0x2000
        <= u && u <= 0x200a) || u == 0x2028 || u == 0x2029 || u == 0x202f || u == 0x205f || u
        == 0x3000
}

/// The value of `cs[lo..hi]` with surrounding white space removed.
fn number_in(cs: &Vec<char>, lo: usize, hi: usize) -> (r: Option<u64>)
    requires
        lo <= hi <= cs@.len(),
    ensures
        r == number(cs@.subrange(lo as int, hi as int)),
{
    let mut a: usize = lo;
    while a < hi && is_white_exec(cs[a])
        invariant
            lo <= a <= hi <= cs@.len(),
            trim_start(cs@.subrange(lo as int, hi as int)) == trim_start(
                cs@.subrange(a as int, hi as int),
            ),
        decreases hi - a,
    {
        assert(cs@.subrange(a as int, hi as int).drop_first() =~= cs@.subrange(a + 1, hi as int));
        a = a + 1;
    }
    let ghost head = cs@.subrange(a as int, hi as int);
    assert(trim_start(head) == head);
    let mut b: usize = hi;
    while b > a && is_white_exec(cs[b - 1])
        invariant
            lo <= a <= b <= hi <= cs@.len(),
            head == cs@.subrange(a as int, hi as int),
            trim_end(head) == trim_end(cs@.subrange(a as int, b as int)),
        decreases b - a,
    {
        assert(cs@.subrange(a as int, b as int).drop_last() =~= cs@.subrange(a as int, b - 1));
        b = b - 1;
    }
    assert(trim_end(cs@.subrange(a as int, b as int)) == cs@.subrange(a as int, b as int));
    decimal_in(cs, a, b)
}

/// Appends every position from `lo` to `hi` inclusive, zero left out.
fn push_range(lo: u64, hi: u64, out: &mut Vec<u64>)
    ensures
        final(out)@ == old(out)@ + range_values(lo, hi),
{
    let ghost base = old(out)@;
    let start: u64 = if lo == 0 {
        1
    } else {
        lo
    };
    if hi < start {
        assert(base + range_values(lo, hi) =~= base);
        return;
    }
    let mut a: u64 = start;
    loop
        invariant_except_break
            start <= a <= hi,
            out@ =~= base + Seq::new((a - start) as nat, |i: int| (start + i) as u64),
        ensures
            out@ =~= base + Seq::new((hi - start + 1) as nat, |i: int| (start + i) as u64),
        decreases hi - a,
    {
        out.push(a);
        if a == hi {
            break;
        }
        a = a + 1;
    }
    assert(out@ =~= base + range_values(lo, hi));
}

/// Appends the positions that the token `cs[lo..hi]` stands for.
fn push_token_values(cs: &Vec<char>, lo: usize, hi: usize, out: &mut Vec<u64>)
    requires
        lo <= hi <= cs@.len(),
    ensures
        final(out)@ == old(out)@ + token_values(cs@.subrange(lo as int, hi as int)),
{
    let ghost t = cs@.subrange(lo as int, hi as int);
    let mut k: usize = lo;
    while k < hi && cs[k] != '-'
        invariant
            lo <= k <= hi <= cs@.len(),
            t == cs@.subrange(lo as int, hi as int),
            forall|j: int| 0 <= j < k - lo ==> t[j] != '-',
        decreases hi - k,
    {
        k = k + 1;
    }
    if k < hi {
        let ghost kk = k - lo;
        assert(first_dash(t, kk));
        assert forall|k2: int| first_dash(t, k2) implies k2 == kk by {
            if k2 < kk {
                assert(t[k2] != '-');
            } else if k2 > kk {
                assert(t[kk] != '-');
            }
        };
        assert(t.take(kk) =~= cs@.subrange(lo as int, k as int));
        assert(t.skip(kk + 1) =~= cs@.subrange(k + 1, hi as int));
        let a = number_in(cs, lo, k);
        let b = number_in(cs, k + 1, hi);
        match (a, b) {
            (Some(x), Some(y)) => {
                push_range(x, y, out);
            },
            _ => {
                assert(old(out)@ + token_values(t) =~= old(out)@);
            },
        }
    } else {
        assert(!exists|k2: int| first_dash(t, k2));
        match number_in(cs, lo, hi) {
            Some(v) => {
                if v != 0 {
                    out.push(v);
                } else {
                    assert(old(out)@ + token_values(t) =~= old(out)@);
                }
            },
            None => {
                assert(old(out)@ + token_values(t) =~= old(out)@);
            },
        }
    }
}

proof fn lemma_token_values_positive(t: Seq<char>)
    ensures
        forall|i: int| 0 <= i < token_values(t).len() ==> #[trigger] token_values(t)[i] >= 1,
{
}

proof fn lemma_expansion_step(s: Seq<char>, i: int)
    requires
        0 <= i < s.len(),
    ensures
        list_tokens(s.take(i + 1)) == (if is_separator(s[i]) {
            list_tokens(s.take(i)).push(Seq::empty())
        } else {
            list_tokens(s.take(i)).drop_last().push(list_tokens(s.take(i)).last().push(s[i]))
        }),
{
    assert(s.take(i + 1).drop_last() =~= s.take(i));
}

/// The positions of the list `cs`, token by token.
fn expand(cs: &Vec<char>) -> (r: Vec<u64>)
    ensures
        r@ == expansion(cs@),
        forall|i: int| 0 <= i < r@.len() ==> #[trigger] r@[i] >= 1,
{
    let mut out: Vec<u64> = Vec::new();
    let mut st: usize = 0;
    let mut i: usize = 0;
    proof {
        assert(cs@.take(0) =~= Seq::<char>::empty());
        assert(list_tokens(cs@.take(0)).drop_last() =~= Seq::<Seq<char>>::empty());
        assert(cs@.subrange(0, 0) =~= Seq::<char>::empty());
    }
    while i < cs.len()
        invariant
            st <= i <= cs@.len(),
            list_tokens(cs@.take(i as int)).len() >= 1,
            list_tokens(cs@.take(i as int)).last() == cs@.subrange(st as int, i as int),
            out@ == list_tokens(cs@.take(i as int)).drop_last().map_values(
                |t: Seq<char>| token_values(t),
            ).flatten(),
            forall|j: int| 0 <= j < out@.len() ==> #[trigger] out@[j] >= 1,
        decreases cs@.len() - i,
    {
        let ghost prev = list_tokens(cs@.take(i as int));
        let ghost old_out = out@;
        proof {
            lemma_expansion_step(cs@, i as int);
            lemma_list_tokens_nonempty(cs@.take(i as int + 1));
        }
        if cs[i] == ',' || cs[i] == ' ' {
            push_token_values(cs, st, i, &mut out);
            proof {
                lemma_token_values_positive(cs@.subrange(st as int, i as int));
                let f = |t: Seq<char>| token_values(t);
                assert(prev.drop_last().push(prev.last()) =~= prev);
                assert(prev.map_values(f) =~= prev.drop_last().map_values(f).push(
                    token_values(prev.last()),
                ));
                prev.drop_last().map_values(f).lemma_flatten_push(token_values(prev.last()));
                assert(list_tokens(cs@.take(i + 1)).drop_last() =~= prev);
                assert(cs@.subrange(i + 1, i + 1) =~= Seq::<char>::empty());
            }
            st = i + 1;
        } else {
            proof {
                assert(list_tokens(cs@.take(i + 1)).drop_last() =~= prev.drop_last());
                assert(cs@.subrange(st as int, i + 1) =~= cs@.subrange(st as int, i as int).push(
                    cs@[i as int],
                ));
            }
        }
        i = i + 1;
    }
    let ghost prev = list_tokens(cs@.take(i as int));
    push_token_values(cs, st, i, &mut out);
    proof {
        lemma_token_values_positive(cs@.subrange(st as int, i as int));
        assert(cs@.take(i as int) =~= cs@);
        let f = |t: Seq<char>| token_values(t);
        assert(prev.drop_last().push(prev.last()) =~= prev);
        assert(prev.map_values(f) =~= prev.drop_last().map_values(f).push(token_values(prev.last())));
        prev.drop_last().map_values(f).lemma_flatten_push(token_values(prev.last()));
    }
    out
}

/// The same positions in ascending order.
fn sort_positions(v: &Vec<u64>) -> (r: Vec<u64>)
    ensures
        sorted(r@),
        r@.to_multiset() == v@.to_multiset(),
{
    let mut r: Vec<u64> = Vec::new();
    let mut i: usize = 0;
    assert(v@.take(0) =~= Seq::<u64>::empty());
    while i < v.len()
        invariant
            i <= v@.len(),
            sorted(r@),
            r@.to_multiset() == v@.take(i as int).to_multiset(),
        decreases v@.len() - i,
    {
        let x = v[i];
        let mut p: usize = 0;
        while p < r.len() && r[p] <= x
            invariant
                p <= r@.len(),
                sorted(r@),
                forall|j: int| 0 <= j < p ==> r@[j] <= x,
            decreases r@.len() - p,
        {
            p = p + 1;
        }
        let ghost before = r@;
        r.insert(p, x);
        proof {
            to_multiset_insert(before, p as int, x);
            assert(v@.take(i + 1) =~= v@.take(i as int).push(x));
            assert forall|a: int, b: int| 0 <= a <= b < r@.len() implies r@[a] <= r@[b] by {
                if a < p && b > p {
                    assert(r@[a] == before[a]);
                    assert(r@[b] == before[b - 1]);
                } else if a < p && b == p {
                } else if a == p && b > p {
                    assert(before[p as int] > x);
                    assert(before[p as int] <= before[b - 1]);
                } else if a > p {
                    assert(r@[a] == before[a - 1]);
                }
            };
        }
        i = i + 1;
    }
    assert(v@.take(i as int) =~= v@);
    r
}

/// Parses a position list such as `1,3-5,7`: spaces count as commas, empty
/// tokens are skipped, `a-b` stands for every position from `a` to `b`, white
/// space around a number is ignored, and tokens that do not parse or that
/// name position zero are dropped. The result is in ascending order;
/// repeated positions are kept.
pub fn parse_positions(list: &str) -> (r: Vec<u64>)
    ensures
        r@ == selection(list@),
        sorted(r@),
        forall|i: int| 0 <= i < r@.len() ==> #[trigger] r@[i] >= 1,
{
    let cs = chars_of(list);
    positions_of_chars(&cs)
}

/// `parse_positions` on a list given as characters.
pub fn positions_of_chars(cs: &Vec<char>) -> (r: Vec<u64>)
    ensures
        r@ == selection(cs@),
        sorted(r@),
        forall|i: int| 0 <= i < r@.len() ==> #[trigger] r@[i] >= 1,
{
    let e = expand(cs);
    let r = sort_positions(&e);
    assert forall|i: int| 0 <= i < r@.len() implies #[trigger] r@[i] >= 1 by {
        assert(r@.to_multiset().count(r@[i]) > 0);
        assert(e@.contains(r@[i]));
    };
    proof {
        lemma_selection_unique(r@, cs@);
    }
    r
}

} // verus!
