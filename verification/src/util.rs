//! Small verified building blocks shared by the access-control modules:
//! sums of partitions, decimal and list rendering of numbers, and string
//! comparison.

use vstd::prelude::*;
use vstd::string::*;

verus! {

/// Sum of the parts of a sequence of sizes (the codimension of a partition).
pub open spec fn seq_sum(s: Seq<usize>) -> nat
    decreases s.len(),
{
    if s.len() == 0 {
        0
    } else {
        seq_sum(s.drop_last()) + s.last() as nat
    }
}

/// Sum of the codimensions of a sequence of partitions.
pub open spec fn total_codim(parts: Seq<Seq<usize>>) -> nat
    decreases parts.len(),
{
    if parts.len() == 0 {
        0
    } else {
        total_codim(parts.drop_last()) + seq_sum(parts.last())
    }
}

/// The dimension k(n-k) of the Grassmannian Gr(k,n).
pub open spec fn grassmannian_dim(k: nat, n: nat) -> nat {
    if k <= n { (k * (n - k)) as nat } else { 0 }
}

/// Every part of the partition is at most `bound`.
pub open spec fn parts_at_most(p: Seq<usize>, bound: nat) -> bool {
    forall|i: int| 0 <= i < p.len() ==> #[trigger] p[i] <= bound
}

pub proof fn lemma_seq_sum_push(s: Seq<usize>, x: usize)
    ensures
        seq_sum(s.push(x)) == seq_sum(s) + x,
{
    assert(s.push(x).drop_last() =~= s);
}

pub proof fn lemma_total_codim_push(parts: Seq<Seq<usize>>, p: Seq<usize>)
    ensures
        total_codim(parts.push(p)) == total_codim(parts) + seq_sum(p),
{
    assert(parts.push(p).drop_last() =~= parts);
}

/// A prefix sum never exceeds the whole sum.
pub proof fn lemma_seq_sum_prefix(s: Seq<usize>, i: int)
    requires
        0 <= i <= s.len(),
    ensures
        seq_sum(s.subrange(0, i)) <= seq_sum(s),
    decreases s.len() - i,
{
    if i < s.len() {
        lemma_seq_sum_prefix(s, i + 1);
        lemma_seq_sum_push(s.subrange(0, i), s[i]);
        assert(s.subrange(0, i).push(s[i]) =~= s.subrange(0, i + 1));
    } else {
        assert(s.subrange(0, i) =~= s);
    }
}

/// A prefix of a list of partitions has no more total codimension than the list.
pub proof fn lemma_total_codim_prefix(parts: Seq<Seq<usize>>, i: int)
    requires
        0 <= i <= parts.len(),
    ensures
        total_codim(parts.subrange(0, i)) <= total_codim(parts),
    decreases parts.len() - i,
{
    if i < parts.len() {
        lemma_total_codim_prefix(parts, i + 1);
        lemma_total_codim_push(parts.subrange(0, i), parts[i]);
        assert(parts.subrange(0, i).push(parts[i]) =~= parts.subrange(0, i + 1));
    } else {
        assert(parts.subrange(0, i) =~= parts);
    }
}

/// A bound on every part bounds the sum by `len * bound`.
pub proof fn lemma_seq_sum_bound(s: Seq<usize>, bound: nat)
    requires
        parts_at_most(s, bound),
    ensures
        seq_sum(s) <= s.len() * bound,
    decreases s.len(),
{
    if s.len() > 0 {
        lemma_seq_sum_bound(s.drop_last(), bound);
        assert(s.last() <= bound);
        assert((s.len() - 1) * bound + bound == s.len() * bound) by (nonlinear_arith);
    }
}

/// Computes the sum of the parts of a partition.
pub fn sum_parts(p: &[usize]) -> (r: usize)
    requires
        seq_sum(p@) <= usize::MAX,
    ensures
        r == seq_sum(p@),
{
    let mut acc: usize = 0;
    let mut i: usize = 0;
    while i < p.len()
        invariant
            i <= p.len(),
            acc == seq_sum(p@.subrange(0, i as int)),
            seq_sum(p@) <= usize::MAX,
        decreases p.len() - i,
    {
        proof {
            lemma_seq_sum_push(p@.subrange(0, i as int), p@[i as int]);
            assert(p@.subrange(0, i as int).push(p@[i as int]) =~= p@.subrange(0, i + 1));
            lemma_seq_sum_prefix(p@, i + 1);
        }
        acc = acc + p[i];
        i = i + 1;
    }
    assert(p@.subrange(0, i as int) =~= p@);
    acc
}

/// Whether the parts of a partition sum to at most `bound`, without
/// overflowing whatever the parts are.
pub fn sum_within(p: &[usize], bound: usize) -> (r: bool)
    ensures
        r == (seq_sum(p@) <= bound),
{
    let mut acc: usize = 0;
    let mut i: usize = 0;
    while i < p.len()
        invariant
            i <= p.len(),
            acc == seq_sum(p@.subrange(0, i as int)),
            acc <= bound,
        decreases p.len() - i,
    {
        proof {
            lemma_seq_sum_push(p@.subrange(0, i as int), p@[i as int]);
            assert(p@.subrange(0, i as int).push(p@[i as int]) =~= p@.subrange(0, i + 1));
        }
        if p[i] > bound - acc {
            proof {
                lemma_seq_sum_prefix(p@, i + 1);
            }
            return false;
        }
        acc = acc + p[i];
        i = i + 1;
    }
    assert(p@.subrange(0, i as int) =~= p@);
    true
}

/// Whether the parts of a partition sum to at most the dimension k(n−k) of
/// Gr(k,n), computed without overflow for any k ≤ n.
pub fn sum_within_dim(p: &[usize], k: usize, n: usize) -> (r: bool)
    requires
        k <= n,
    ensures
        r == (seq_sum(p@) <= grassmannian_dim(k as nat, n as nat)),
{
    let a: u128 = k as u128;
    let b: u128 = (n - k) as u128;
    assert(a * b <= 0xffff_ffff_ffff_ffffu128 * 0xffff_ffff_ffff_ffffu128) by (nonlinear_arith)
        requires
            a <= 0xffff_ffff_ffff_ffffu128,
            b <= 0xffff_ffff_ffff_ffffu128,
    ;
    let dim: u128 = a * b;
    assert(dim == grassmannian_dim(k as nat, n as nat));
    let mut acc: u128 = 0;
    let mut i: usize = 0;
    while i < p.len()
        invariant
            i <= p.len(),
            acc == seq_sum(p@.subrange(0, i as int)),
            acc <= dim,
            dim == grassmannian_dim(k as nat, n as nat),
        decreases p.len() - i,
    {
        proof {
            lemma_seq_sum_push(p@.subrange(0, i as int), p@[i as int]);
            assert(p@.subrange(0, i as int).push(p@[i as int]) =~= p@.subrange(0, i + 1));
        }
        let x: u128 = p[i] as u128;
        if x > dim - acc {
            proof {
                lemma_seq_sum_prefix(p@, i + 1);
            }
            return false;
        }
        acc = acc + x;
        i = i + 1;
    }
    assert(p@.subrange(0, i as int) =~= p@);
    true
}

/// A decimal digit character.
pub open spec fn is_digit(c: char) -> bool {
    '0' <= c && c <= '9'
}

/// The value of a string of decimal digits.
pub open spec fn digits_value(s: Seq<char>) -> nat
    decreases s.len(),
{
    if s.len() == 0 {
        0
    } else {
        digits_value(s.drop_last()) * 10 + (s.last() as nat - '0' as nat) as nat
    }
}

/// The digits of an unsigned number: the text without a leading `+`.
pub open spec fn unsigned_digits(s: Seq<char>) -> Seq<char> {
    if s.len() > 0 && s[0] == '+' {
        s.drop_first()
    } else {
        s
    }
}

/// What `str::parse::<usize>` gives: the value of an optional `+` followed
/// by one or more decimal digits, when it fits `usize`.
pub open spec fn parsed_usize(s: Seq<char>) -> Option<usize> {
    let d = unsigned_digits(s);
    if d.len() > 0 && (forall|i: int| 0 <= i < d.len() ==> is_digit(#[trigger] d[i])) && digits_value(d)
        <= usize::MAX {
        Some(digits_value(d) as usize)
    } else {
        None
    }
}

/// A prefix of a digit string has no larger value.
proof fn lemma_digits_prefix(s: Seq<char>, j: int)
    requires
        0 <= j <= s.len(),
        forall|i: int| 0 <= i < s.len() ==> is_digit(#[trigger] s[i]),
    ensures
        digits_value(s.subrange(0, j)) <= digits_value(s),
    decreases s.len() - j,
{
    if j < s.len() {
        lemma_digits_prefix(s, j + 1);
        let t = s.subrange(0, j + 1);
        assert(t.drop_last() =~= s.subrange(0, j));
        assert(is_digit(s[j]));
    } else {
        assert(s.subrange(0, j) =~= s);
    }
}

/// Parses a decimal number as `str::parse::<usize>` does: an optional `+`,
/// then one or more digits, within `usize`.
pub fn parse_usize(text: &str) -> (r: Option<usize>)
    ensures
        r == parsed_usize(text@),
{
    let len = text.unicode_len();
    if len == 0 {
        return None;
    }
    let start: usize = if text.get_char(0) == '+' { 1 } else { 0 };
    let ghost d = unsigned_digits(text@);
    assert(d =~= text@.subrange(start as int, len as int));
    if start == len {
        assert(d.len() == 0);
        return None;
    }
    let mut acc: usize = 0;
    let mut i: usize = start;
    while i < len
        invariant
            start <= i <= len,
            len == text@.len(),
            start < len,
            d == text@.subrange(start as int, len as int),
            d == unsigned_digits(text@),
            forall|t: int| 0 <= t < i - start ==> is_digit(#[trigger] d[t]),
            acc == digits_value(d.subrange(0, i - start)),
        decreases len - i,
    {
        let c = text.get_char(i);
        assert(c == d[i - start]);
        if !('0' <= c && c <= '9') {
            assert(!is_digit(d[i - start]));
            assert(!(forall|t: int| 0 <= t < d.len() ==> is_digit(#[trigger] d[t])));
            return None;
        }
        let v: usize = (c as u32 - '0' as u32) as usize;
        assert(d.subrange(0, i - start + 1).drop_last() =~= d.subrange(0, i - start));
        assert(v == (c as nat - '0' as nat));
        if acc > (usize::MAX - v) / 10 {
            proof {
                assert(acc * 10 + v > usize::MAX) by (nonlinear_arith)
                    requires
                        acc > (usize::MAX - v) / 10,
                        v <= 9,
                ;
                if forall|t: int| 0 <= t < d.len() ==> is_digit(#[trigger] d[t]) {
                    lemma_digits_prefix(d, i - start + 1);
                }
            }
            return None;
        }
        assert(acc * 10 + v <= usize::MAX) by (nonlinear_arith)
            requires
                acc <= (usize::MAX - v) / 10,
                v <= 9,
        ;
        acc = acc * 10 + v;
        i = i + 1;
    }
    assert(d.subrange(0, i - start) =~= d);
    Some(acc)
}

/// The character of a decimal digit.
pub open spec fn digit_char(d: nat) -> char {
    if d == 0 { '0' }
    else if d == 1 { '1' }
    else if d == 2 { '2' }
    else if d == 3 { '3' }
    else if d == 4 { '4' }
    else if d == 5 { '5' }
    else if d == 6 { '6' }
    else if d == 7 { '7' }
    else if d == 8 { '8' }
    else { '9' }
}

/// Decimal rendering of a natural number, as `{}` formats it.
pub open spec fn decimal(n: nat) -> Seq<char>
    decreases n,
{
    if n < 10 {
        seq![digit_char(n)]
    } else {
        decimal(n / 10).push(digit_char(n % 10))
    }
}

fn digit_str(d: usize) -> (r: &'static str)
    requires
        d < 10,
    ensures
        r@ == seq![digit_char(d as nat)],
{
    proof {
        reveal_strlit("0");
        reveal_strlit("1");
        reveal_strlit("2");
        reveal_strlit("3");
        reveal_strlit("4");
        reveal_strlit("5");
        reveal_strlit("6");
        reveal_strlit("7");
        reveal_strlit("8");
        reveal_strlit("9");
    }
    if d == 0 { "0" }
    else if d == 1 { "1" }
    else if d == 2 { "2" }
    else if d == 3 { "3" }
    else if d == 4 { "4" }
    else if d == 5 { "5" }
    else if d == 6 { "6" }
    else if d == 7 { "7" }
    else if d == 8 { "8" }
    else { "9" }
}

/// Renders a number in decimal.
pub fn decimal_string(n: usize) -> (r: String)
    ensures
        r@ == decimal(n as nat),
    decreases n,
{
    if n < 10 {
        String::from_str(digit_str(n))
    } else {
        let mut s = decimal_string(n / 10);
        s.append(digit_str(n % 10));
        s
    }
}

/// The items of a list joined by `", "`.
pub open spec fn join_decimals(s: Seq<usize>) -> Seq<char>
    decreases s.len(),
{
    if s.len() == 0 {
        Seq::empty()
    } else if s.len() == 1 {
        decimal(s[0] as nat)
    } else {
        join_decimals(s.drop_last()) + ", "@ + decimal(s.last() as nat)
    }
}

/// Debug rendering of a list of sizes, as `{:?}` formats it: `[1, 2]`.
pub open spec fn debug_list(s: Seq<usize>) -> Seq<char> {
    "["@ + join_decimals(s) + "]"@
}

/// Renders a list of sizes the way `{:?}` does.
pub fn debug_list_string(v: &[usize]) -> (r: String)
    ensures
        r@ == debug_list(v@),
{
    let mut s = String::from_str("[");
    let mut i: usize = 0;
    while i < v.len()
        invariant
            i <= v.len(),
            s@ == "["@ + join_decimals(v@.subrange(0, i as int)),
        decreases v.len() - i,
    {
        let ghost before = s@;
        if i > 0 {
            s.append(", ");
        }
        let d = decimal_string(v[i]);
        s.append(d.as_str());
        proof {
            let sub = v@.subrange(0, i + 1);
            assert(sub.drop_last() =~= v@.subrange(0, i as int));
            if i == 0 {
                assert(join_decimals(v@.subrange(0, 0)) =~= Seq::<char>::empty());
                assert(s@ =~= "["@ + join_decimals(sub));
            } else {
                assert(s@ =~= "["@ + join_decimals(sub));
            }
        }
        i = i + 1;
    }
    assert(v@.subrange(0, i as int) =~= v@);
    s.append("]");
    s
}

/// String equality of two string slices: whether they hold the same
/// characters.
pub fn str_eq(a: &str, b: &str) -> (r: bool)
    ensures
        r == (a@ == b@),
{
    let x: String = a.to_owned();
    let y: String = b.to_owned();
    x == y
}

/// Copies a string slice into an owned string.
pub fn owned(s: &str) -> (r: String)
    ensures
        r@ == s@,
{
    String::from_str(s)
}

/// Copies an owned string.
pub fn copy_string(s: &String) -> (r: String)
    ensures
        r == *s,
        r@ == s@,
{
    s.clone()
}

/// Copies a list of sizes.
pub fn copy_sizes(v: &Vec<usize>) -> (r: Vec<usize>)
    ensures
        r@ == v@,
{
    let mut out: Vec<usize> = Vec::new();
    let mut i: usize = 0;
    while i < v.len()
        invariant
            i <= v.len(),
            out@ == v@.subrange(0, i as int),
        decreases v.len() - i,
    {
        out.push(v[i]);
        i = i + 1;
    }
    assert(v@.subrange(0, i as int) =~= v@);
    out
}


// ── Keyed sequences ───────────────────────────────────────────────────

/// No two elements of the sequence share a key.
pub open spec fn keys_unique<T, K>(s: Seq<T>, key: spec_fn(T) -> K) -> bool {
    forall|i: int, j: int|
        0 <= i < s.len() && 0 <= j < s.len() && i != j ==> #[trigger] key(s[i]) != #[trigger] key(s[j])
}

/// Some element of the sequence has this key.
pub open spec fn has_key<T, K>(s: Seq<T>, key: spec_fn(T) -> K, k: K) -> bool {
    exists|i: int| 0 <= i < s.len() && #[trigger] key(s[i]) == k
}

/// The map from each key to the value of the element with that key.
pub open spec fn keyed<T, K, V>(s: Seq<T>, key: spec_fn(T) -> K, val: spec_fn(T) -> V) -> Map<K, V> {
    Map::new(
        |k: K| has_key(s, key, k),
        |k: K| val(s[choose|i: int| 0 <= i < s.len() && #[trigger] key(s[i]) == k]),
    )
}

/// The element at `i` gives the keyed map's value at its key.
pub proof fn lemma_keyed_at<T, K, V>(s: Seq<T>, key: spec_fn(T) -> K, val: spec_fn(T) -> V, i: int)
    requires
        keys_unique(s, key),
        0 <= i < s.len(),
    ensures
        keyed(s, key, val).contains_key(key(s[i])),
        keyed(s, key, val)[key(s[i])] == val(s[i]),
{
    let k = key(s[i]);
    assert(key(s[i]) == k);
    let j = choose|j: int| 0 <= j < s.len() && #[trigger] key(s[j]) == k;
    assert(j == i);
}

/// Appending an element with a fresh key inserts it into the keyed map.
pub proof fn lemma_keyed_push<T, K, V>(s: Seq<T>, key: spec_fn(T) -> K, val: spec_fn(T) -> V, x: T)
    requires
        keys_unique(s, key),
        !has_key(s, key, key(x)),
    ensures
        keys_unique(s.push(x), key),
        keyed(s.push(x), key, val) == keyed(s, key, val).insert(key(x), val(x)),
{
    let d = s.push(x);
    assert forall|i: int, j: int|
        0 <= i < d.len() && 0 <= j < d.len() && i != j implies #[trigger] key(d[i]) != #[trigger] key(d[j]) by {
        if i < s.len() && j < s.len() {
            assert(d[i] == s[i] && d[j] == s[j]);
        } else if i < s.len() {
            assert(d[i] == s[i]);
        } else {
            assert(d[j] == s[j]);
        }
    }
    assert forall|k: K| #[trigger] keyed(d, key, val).contains_key(k) == keyed(s, key, val).insert(key(x), val(x)).contains_key(k) by {
        if has_key(s, key, k) {
            let j = choose|j: int| 0 <= j < s.len() && #[trigger] key(s[j]) == k;
            assert(d[j] == s[j]);
        }
        if k == key(x) {
            assert(key(d[s.len() as int]) == k);
        }
        if has_key(d, key, k) && k != key(x) {
            let j = choose|j: int| 0 <= j < d.len() && #[trigger] key(d[j]) == k;
            assert(j < s.len());
            assert(s[j] == d[j]);
        }
    }
    assert forall|k: K| #[trigger] keyed(d, key, val).contains_key(k) implies keyed(d, key, val)[k]
        == keyed(s, key, val).insert(key(x), val(x))[k] by {
        let j = choose|j: int| 0 <= j < d.len() && #[trigger] key(d[j]) == k;
        lemma_keyed_at(d, key, val, j);
        if j < s.len() {
            assert(s[j] == d[j]);
            lemma_keyed_at(s, key, val, j);
        }
    }
    assert(keyed(d, key, val) =~= keyed(s, key, val).insert(key(x), val(x)));
}

/// Replacing the element at `i` by one with the same key updates the keyed
/// map at that key.
pub proof fn lemma_keyed_set<T, K, V>(s: Seq<T>, key: spec_fn(T) -> K, val: spec_fn(T) -> V, i: int, x: T)
    requires
        keys_unique(s, key),
        0 <= i < s.len(),
        key(x) == key(s[i]),
    ensures
        keys_unique(s.update(i, x), key),
        keyed(s.update(i, x), key, val) == keyed(s, key, val).insert(key(x), val(x)),
{
    let d = s.update(i, x);
    assert forall|a: int, b: int|
        0 <= a < d.len() && 0 <= b < d.len() && a != b implies #[trigger] key(d[a]) != #[trigger] key(d[b]) by {
        assert(key(d[a]) == key(s[a]) && key(d[b]) == key(s[b]));
    }
    lemma_keyed_at(s, key, val, i);
    assert forall|k: K| #[trigger] keyed(d, key, val).contains_key(k) == keyed(s, key, val).insert(key(x), val(x)).contains_key(k) by {
        if has_key(s, key, k) {
            let j = choose|j: int| 0 <= j < s.len() && #[trigger] key(s[j]) == k;
            assert(key(d[j]) == key(s[j]));
        }
        if has_key(d, key, k) {
            let j = choose|j: int| 0 <= j < d.len() && #[trigger] key(d[j]) == k;
            assert(key(d[j]) == key(s[j]));
        }
    }
    assert forall|k: K| #[trigger] keyed(d, key, val).contains_key(k) implies keyed(d, key, val)[k]
        == keyed(s, key, val).insert(key(x), val(x))[k] by {
        let j = choose|j: int| 0 <= j < d.len() && #[trigger] key(d[j]) == k;
        lemma_keyed_at(d, key, val, j);
        if j != i {
            assert(s[j] == d[j]);
            lemma_keyed_at(s, key, val, j);
        }
    }
    assert(keyed(d, key, val) =~= keyed(s, key, val).insert(key(x), val(x)));
}

} // verus!
