use vstd::prelude::*;

verus! {

/// The binomial coefficient: the number of ways to choose `k` of `n` things.
pub open spec fn binomial(n: nat, k: nat) -> nat
    decreases n,
{
    if k == 0 {
        1
    } else if n == 0 {
        0
    } else {
        binomial((n - 1) as nat, (k - 1) as nat) + binomial((n - 1) as nat, k)
    }
}

/// `n * (n - 1) * ... * (n - j + 1)`.
pub open spec fn falling(n: int, j: nat) -> int
    decreases j,
{
    if j == 0 {
        1
    } else {
        falling(n, (j - 1) as nat) * (n - (j - 1))
    }
}

pub open spec fn factorial(j: nat) -> nat
    decreases j,
{
    if j == 0 {
        1
    } else {
        j * factorial((j - 1) as nat)
    }
}

pub open spec fn min_nat(a: nat, b: nat) -> nat {
    if a <= b {
        a
    } else {
        b
    }
}

pub proof fn lemma_binomial_above(n: nat, k: nat)
    requires
        k > n,
    ensures
        binomial(n, k) == 0,
    decreases n,
{
    if n > 0 {
        lemma_binomial_above((n - 1) as nat, (k - 1) as nat);
        lemma_binomial_above((n - 1) as nat, k);
    }
}

pub proof fn lemma_binomial_all(n: nat)
    ensures
        binomial(n, n) == 1,
    decreases n,
{
    if n > 0 {
        lemma_binomial_all((n - 1) as nat);
        lemma_binomial_above((n - 1) as nat, n);
    }
}

/// Choosing `k` of `n` is choosing the `n - k` left out.
pub proof fn lemma_binomial_symmetric(n: nat, k: nat)
    requires
        k <= n,
    ensures
        binomial(n, k) == binomial(n, (n - k) as nat),
    decreases n,
{
    if n == 0 {
    } else if k == 0 {
        lemma_binomial_all(n);
    } else if k == n {
        lemma_binomial_all(n);
    } else {
        lemma_binomial_symmetric((n - 1) as nat, (k - 1) as nat);
        lemma_binomial_symmetric((n - 1) as nat, k);
        assert(binomial(n, (n - k) as nat) == binomial((n - 1) as nat, (n - k - 1) as nat) + binomial(
            (n - 1) as nat,
            (n - k) as nat,
        ));
    }
}

proof fn lemma_falling_head(n: int, j: nat)
    requires
        j >= 1,
    ensures
        falling(n, j) == n * falling(n - 1, (j - 1) as nat),
    decreases j,
{
    if j > 1 {
        lemma_falling_head(n, (j - 1) as nat);
        let f = falling(n - 1, (j - 2) as nat);
        let g = falling(n, (j - 1) as nat);
        assert(g == n * f);
        assert(falling(n, j) == g * (n - (j - 1)));
        assert(falling(n - 1, (j - 1) as nat) == f * (n - 1 - (j - 2)));
        assert((n * f) * (n - (j - 1)) == n * (f * (n - 1 - (j - 2)))) by (nonlinear_arith);
    } else {
        assert(falling(n, 0) == 1);
        assert(falling(n - 1, 0) == 1);
        assert(falling(n, 1) == 1 * (n - 0));
    }
}

/// `n * (n - 1) * ... * (n - j + 1) == C(n, j) * j!`.
pub proof fn lemma_falling_is_binomial_times_factorial(n: nat, j: nat)
    ensures
        falling(n as int, j) == binomial(n, j) * factorial(j),
    decreases n,
{
    if j == 0 {
        assert(binomial(n, 0) == 1 && factorial(0) == 1 && falling(n as int, 0) == 1);
    } else if n == 0 {
        lemma_falling_head(0, j);
        assert(0 * falling(-1, (j - 1) as nat) == 0);
        assert(binomial(n, j) == 0);
        assert(0 * factorial(j) == 0);
    } else {
        lemma_falling_is_binomial_times_factorial((n - 1) as nat, (j - 1) as nat);
        lemma_falling_is_binomial_times_factorial((n - 1) as nat, j);
        lemma_falling_head(n as int, j);
        let f = falling(n - 1, (j - 1) as nat);
        let a = binomial((n - 1) as nat, (j - 1) as nat);
        let b = binomial((n - 1) as nat, j);
        let fj = factorial((j - 1) as nat);
        assert(falling(n - 1, j) == f * (n - 1 - (j - 1)));
        assert(factorial(j) == j * fj);
        assert(f == a * fj);
        assert(falling(n - 1, j) == b * factorial(j));
        assert(binomial(n, j) == a + b);
        assert((a + b) * (j * fj) == j * (a * fj) + b * (j * fj)) by (nonlinear_arith);
        assert(j * f + f * (n - 1 - (j - 1)) == n * f) by (nonlinear_arith);
        assert(falling(n as int, j) == n * f);
        assert(b * factorial(j) == b * (j * fj));
        assert(binomial(n, j) * factorial(j) == (a + b) * (j * fj));
        assert(binomial(n, j) * factorial(j) == j * f + f * (n - 1 - (j - 1)));
    }
}

proof fn lemma_falling_grows(n: nat, i: nat, j: nat)
    requires
        i <= j <= n,
    ensures
        1 <= falling(n as int, i) <= falling(n as int, j),
    decreases j,
{
    if i < j {
        lemma_falling_grows(n, i, (j - 1) as nat);
        let f = falling(n as int, (j - 1) as nat);
        assert(f * (n - (j - 1)) >= f) by (nonlinear_arith)
            requires
                f >= 1,
                n - (j - 1) >= 1,
        ;
    } else if j > 0 {
        lemma_falling_grows(n, (j - 1) as nat, (j - 1) as nat);
        let f = falling(n as int, (j - 1) as nat);
        assert(f * (n - (j - 1)) >= 1) by (nonlinear_arith)
            requires
                f >= 1,
                n - (j - 1) >= 1,
        ;
    }
}

proof fn lemma_factorial_below_falling(n: nat, i: nat)
    requires
        2 * i <= n,
    ensures
        1 <= factorial(i) <= falling(n as int, i),
    decreases i,
{
    if i > 0 {
        lemma_factorial_below_falling(n, (i - 1) as nat);
        let a = factorial((i - 1) as nat);
        let b = falling(n as int, (i - 1) as nat);
        assert(i * a <= b * (n - (i - 1)) && i * a >= 1) by (nonlinear_arith)
            requires
                1 <= a <= b,
                1 <= i <= n - (i - 1),
        ;
    }
}

/// The number of ways to choose `k` of `n` things, computed as
/// `n (n-1) ... (n-k'+1) / k'!` with `k'` the smaller of `k` and `n - k`.
pub fn n_choose_k(n: usize, k: usize) -> (r: u128)
    requires
        k <= n ==> falling(n as int, min_nat(k as nat, (n - k) as nat)) <= u128::MAX,
    ensures
        r == binomial(n as nat, k as nat),
{
    if k > n {
        proof {
            lemma_binomial_above(n as nat, k as nat);
        }
        return 0;
    }
    let kk = if k <= n - k {
        k
    } else {
        n - k
    };
    proof {
        lemma_binomial_symmetric(n as nat, k as nat);
        lemma_falling_grows(n as nat, 0, kk as nat);
    }
    let mut numer: u128 = 1;
    let mut denom: u128 = 1;
    let mut i: usize = 0;
    while i < kk
        invariant
            kk <= n,
            2 * kk <= n,
            falling(n as int, kk as nat) <= u128::MAX,
            i <= kk,
            numer == falling(n as int, i as nat),
            denom == factorial(i as nat),
        decreases kk - i,
    {
        proof {
            lemma_falling_grows(n as nat, (i + 1) as nat, kk as nat);
            lemma_factorial_below_falling(n as nat, (i + 1) as nat);
        }
        proof {
            assert(falling(n as int, (i + 1) as nat) == numer * (n - i));
            assert(factorial((i + 1) as nat) == (i + 1) * factorial(i as nat));
            assert(denom * (i + 1) == (i + 1) * denom) by (nonlinear_arith);
        }
        numer = numer * ((n - i) as u128);
        denom = denom * ((i + 1) as u128);
        i += 1;
    }
    proof {
        lemma_falling_is_binomial_times_factorial(n as nat, kk as nat);
        lemma_factorial_below_falling(n as nat, kk as nat);
        let b = binomial(n as nat, kk as nat);
        let f = factorial(kk as nat);
        assert((b * f) / f == b) by (nonlinear_arith)
            requires
                f >= 1,
        ;
    }
    numer / denom
}

/// `a` comes before `b` in lexicographic order (a proper prefix comes first).
pub open spec fn lex_lt(a: Seq<int>, b: Seq<int>) -> bool {
    ||| (a.len() < b.len() && b.take(a.len() as int) == a)
    ||| exists|k: int| 0 <= k < a.len() && k < b.len() && a.take(k) == b.take(k) && a[k] < b[k]
}

pub open spec fn strictly_sorted(l: Seq<Seq<int>>) -> bool {
    forall|i: int, j: int| 0 <= i < j < l.len() ==> lex_lt(#[trigger] l[i], #[trigger] l[j])
}

pub proof fn lemma_distinct_in_range_len(s: Seq<int>, n: int)
    requires
        s.no_duplicates(),
        0 <= n,
        forall|m: int| 0 <= m < s.len() ==> 0 <= #[trigger] s[m] < n,
    ensures
        s.len() <= n,
{
    s.unique_seq_to_set();
    vstd::set_lib::lemma_int_range(0, n);
    assert(s.to_set().subset_of(vstd::set_lib::set_int_range(0, n)));
    vstd::set_lib::lemma_len_subset(s.to_set(), vstd::set_lib::set_int_range(0, n));
}


/// `c` picks `k` of the indices `0..n`, in increasing order.
pub open spec fn is_combination(n: int, k: int, c: Seq<int>) -> bool {
    &&& c.len() == k
    &&& forall|m: int| 0 <= m < c.len() ==> 0 <= #[trigger] c[m] < n
    &&& forall|a: int, b: int| 0 <= a < b < c.len() ==> #[trigger] c[a] < #[trigger] c[b]
}

/// `l` lists every way to pick `k` of `0..n` once, in lexicographic order.
pub open spec fn lists_combinations(n: int, k: int, l: Seq<Seq<int>>) -> bool {
    &&& strictly_sorted(l)
    &&& forall|q: int| 0 <= q < l.len() ==> is_combination(n, k, #[trigger] l[q])
    &&& forall|c: Seq<int>| is_combination(n, k, c) ==> #[trigger] l.contains(c)
}

pub open spec fn index_seq(v: Seq<usize>) -> Seq<int> {
    v.map_values(|x: usize| x as int)
}

pub open spec fn index_lists(out: Seq<Vec<usize>>) -> Seq<Seq<int>> {
    out.map_values(|v: Vec<usize>| index_seq(v@))
}

/// The combinations that complete `cur` (those that start with it).
pub open spec fn lists_completions(n: int, k: int, cur: Seq<int>, bound: int, chunk: Seq<Seq<int>>) -> bool {
    &&& strictly_sorted(chunk)
    &&& forall|q: int|
        0 <= q < chunk.len() ==> {
            &&& is_combination(n, k, #[trigger] chunk[q])
            &&& chunk[q].take(cur.len() as int) == cur
            &&& (cur.len() < k ==> chunk[q][cur.len() as int] < bound)
        }
    &&& forall|c: Seq<int>|
        is_combination(n, k, c) && c.take(cur.len() as int) == cur && (cur.len() < k ==> c[cur.len() as int] < bound)
            ==> #[trigger] chunk.contains(c)
}

proof fn lemma_combination_room(n: int, k: int, c: Seq<int>, j: int)
    requires
        is_combination(n, k, c),
        0 <= j < k,
    ensures
        c[j] <= n - k + j,
    decreases k - j,
{
    if j < k - 1 {
        lemma_combination_room(n, k, c, j + 1);
        assert(c[j] < c[j + 1]);
    }
}

proof fn lemma_combination_distinct(n: int, k: int, c: Seq<int>)
    requires
        is_combination(n, k, c),
    ensures
        c.no_duplicates(),
{
    assert forall|a: int, b: int| 0 <= a < c.len() && 0 <= b < c.len() && a != b implies c[a] != c[b] by {
        if a < b {
            assert(c[a] < c[b]);
        } else {
            assert(c[b] < c[a]);
        }
    }
}

fn clone_indices(v: &Vec<usize>) -> (c: Vec<usize>)
    ensures
        c@ == v@,
{
    let mut c: Vec<usize> = Vec::new();
    let mut i: usize = 0;
    while i < v.len()
        invariant
            i <= v@.len(),
            c@ == v@.take(i as int),
        decreases v@.len() - i,
    {
        c.push(v[i]);
        assert(c@ =~= v@.take(i + 1));
        i += 1;
    }
    assert(v@.take(v@.len() as int) == v@);
    c
}

/// Appends, in lexicographic order, every combination that completes `cur`
/// with indices from `start` on.
fn extend_combinations(start: usize, n: usize, k: usize, cur: &mut Vec<usize>, out: &mut Vec<Vec<usize>>)
    requires
        start <= n,
        old(cur)@.len() <= k,
        k - old(cur)@.len() <= n - start,
        forall|a: int, b: int| 0 <= a < b < old(cur)@.len() ==> #[trigger] old(cur)@[a] < #[trigger] old(cur)@[b],
        old(cur)@.len() == 0 ==> start == 0,
        old(cur)@.len() > 0 ==> start == old(cur)@.last() + 1,
    ensures
        final(cur)@ == old(cur)@,
        final(out)@.len() == old(out)@.len() + binomial((n - start) as nat, (k - old(cur)@.len()) as nat),
        forall|q: int| 0 <= q < old(out)@.len() ==> final(out)@[q] == old(out)@[q],
        lists_completions(
            n as int,
            k as int,
            index_seq(old(cur)@),
            n as int,
            index_lists(final(out)@).skip(old(out)@.len() as int),
        ),
    decreases k - old(cur)@.len(),
{
    let ghost cur0 = index_seq(cur@);
    let ghost out0 = out@;
    let ghost len = cur@.len() as int;
    if cur.len() == k {
        out.push(clone_indices(cur));
        proof {
            let chunk = index_lists(out@).skip(out0.len() as int);
            assert(chunk =~= seq![cur0]);
            assert forall|c: Seq<int>|
                is_combination(n as int, k as int, c) && c.take(len) == cur0 implies #[trigger] chunk.contains(c) by {
                assert(c =~= cur0);
                assert(chunk[0] == c);
            }
            assert forall|a: int, b: int| 0 <= a < b < cur0.len() implies #[trigger] cur0[a] < #[trigger] cur0[b] by {
                assert(cur@[a] < cur@[b]);
            }
            assert forall|m: int| 0 <= m < cur0.len() implies 0 <= #[trigger] cur0[m] < n by {
                if m < cur0.len() - 1 {
                    assert(cur@[m] < cur@[cur0.len() - 1]);
                }
            }
            assert(cur0.take(len) =~= cur0);
        }
        return;
    }
    let remaining = k - cur.len();
    let mut i = start;
    let ghost mut acc: Seq<Seq<int>> = Seq::empty();
    proof {
        assert(index_lists(out@).skip(out0.len() as int) =~= acc);
        assert forall|c: Seq<int>|
            is_combination(n as int, k as int, c) && c.take(len) == cur0 && (len < k ==> c[len] < start)
                implies #[trigger] acc.contains(c) by {
            if len > 0 {
                assert(c[len - 1] == c.take(len)[len - 1]);
                assert(c[len - 1] < c[len]);
                assert(cur0[len - 1] == cur@[len - 1]);
            }
        }
    }
    while i <= n - remaining
        invariant
            start <= i <= n - remaining + 1,
            remaining == k - cur@.len(),
            remaining >= 1,
            remaining <= n - start,
            cur0 == index_seq(cur@),
            cur@ == old(cur)@,
            len == cur@.len(),
            forall|a: int, b: int| 0 <= a < b < cur@.len() ==> #[trigger] cur@[a] < #[trigger] cur@[b],
            cur@.len() == 0 ==> start == 0,
            cur@.len() > 0 ==> start == cur@.last() + 1,
            out@.len() == out0.len() + acc.len(),
            forall|q: int| 0 <= q < out0.len() ==> out@[q] == out0[q],
            index_lists(out@).skip(out0.len() as int) == acc,
            lists_completions(n as int, k as int, cur0, i as int, acc),
            acc.len() + binomial((n - i) as nat, remaining as nat) == binomial((n - start) as nat, remaining as nat),
        decreases n - remaining + 1 - i,
    {
        let ghost next = cur0.push(i as int);
        cur.push(i);
        proof {
            assert(index_seq(cur@) =~= next);
            assert forall|a: int, b: int| 0 <= a < b < cur@.len() implies #[trigger] cur@[a] < #[trigger] cur@[b] by {
                if b == cur@.len() - 1 && a < b {
                    if cur@.len() >= 2 {
                        assert(cur@[a] <= cur@[cur@.len() - 2]) by {
                            if a < cur@.len() - 2 {
                                assert(cur@[a] < cur@[cur@.len() - 2]);
                            }
                        }
                    }
                }
            }
        }
        let ghost out_before = out@;
        assert(cur@.len() == len + 1);
        extend_combinations(i + 1, n, k, cur, out);
        let ghost sub = index_lists(out@).skip(out_before.len() as int);
        let ghost pushed = cur@;
        cur.pop();
        proof {
            assert(cur@ =~= old(cur)@) by {
                assert(cur@ == pushed.drop_last());
            }
            let old_acc = acc;
            acc = old_acc + sub;
            assert(index_lists(out@).skip(out0.len() as int) =~= acc) by {
                assert forall|q: int| 0 <= q < acc.len() implies index_lists(out@).skip(out0.len() as int)[q] == acc[q] by {
                    if q < old_acc.len() {
                        assert(out@[out0.len() + q] == out_before[out0.len() + q]);
                        assert(index_lists(out_before).skip(out0.len() as int)[q] == old_acc[q]);
                    }
                }
            }
            assert(cur@.len() == len);
            // Pascal's rule
            assert(binomial((n - i) as nat, remaining as nat) == binomial((n - i - 1) as nat, (remaining - 1) as nat)
                + binomial((n - i - 1) as nat, remaining as nat));
            assert forall|x: int, y: int| 0 <= x < y < acc.len() implies lex_lt(#[trigger] acc[x], #[trigger] acc[y]) by {
                if y < old_acc.len() {
                } else if x >= old_acc.len() {
                    assert(acc[x] == sub[x - old_acc.len()] && acc[y] == sub[y - old_acc.len()]);
                } else {
                    let ax = acc[x];
                    let ay = acc[y];
                    assert(ay == sub[y - old_acc.len()]);
                    assert(ay.take(len + 1) == next);
                    assert(ay.take(len) == ay.take(len + 1).take(len));
                    assert(ay[len] == next[len]);
                    assert(ax.take(len) == cur0);
                    assert(ax.take(len) == ay.take(len));
                }
            }
            assert forall|q: int| 0 <= q < acc.len() implies {
                &&& is_combination(n as int, k as int, #[trigger] acc[q])
                &&& acc[q].take(len) == cur0
                &&& (len < k ==> acc[q][len] < i + 1)
            } by {
                if q >= old_acc.len() {
                    let c = sub[q - old_acc.len()];
                    assert(acc[q] == c);
                    assert(c.take(len + 1) == next);
                    assert(c.take(len) == c.take(len + 1).take(len));
                    assert(c[len] == next[len]);
                }
            }
            assert forall|c: Seq<int>|
                is_combination(n as int, k as int, c) && c.take(len) == cur0 && (len < k ==> c[len] < i + 1)
                    implies #[trigger] acc.contains(c) by {
                if c[len] < i {
                    assert(old_acc.contains(c));
                    let q = choose|q: int| 0 <= q < old_acc.len() && old_acc[q] == c;
                    assert(acc[q] == c);
                } else {
                    assert(c.take(len + 1) =~= next);
                    assert(sub.contains(c));
                    let q = choose|q: int| 0 <= q < sub.len() && sub[q] == c;
                    assert(acc[old_acc.len() + q] == c);
                }
            }
        }
        i += 1;
    }
    proof {
        lemma_binomial_above((n - i) as nat, remaining as nat);
        assert forall|c: Seq<int>|
            is_combination(n as int, k as int, c) && c.take(len) == cur0 implies #[trigger] acc.contains(c) by {
            lemma_combination_room(n as int, k as int, c, len);
        }
    }
}

/// Every way to pick `k` of the indices `0..n`, each in increasing order,
/// listed once in lexicographic order; there are C(n, k) of them.
pub fn combinations_indices(n: usize, k: usize) -> (out: Vec<Vec<usize>>)
    ensures
        lists_combinations(n as int, k as int, index_lists(out@)),
        out@.len() == binomial(n as nat, k as nat),
{
    let mut out: Vec<Vec<usize>> = Vec::new();
    let mut cur: Vec<usize> = Vec::new();
    if k == 0 {
        out.push(Vec::new());
        proof {
            let l = index_lists(out@);
            assert(l[0] =~= Seq::<int>::empty());
            assert forall|c: Seq<int>| is_combination(n as int, k as int, c) implies #[trigger] l.contains(c) by {
                assert(c =~= Seq::<int>::empty());
                assert(l[0] == c);
            }
        }
        return out;
    }
    if k > n {
        proof {
            lemma_binomial_above(n as nat, k as nat);
            assert forall|c: Seq<int>| is_combination(n as int, k as int, c) implies #[trigger] index_lists(out@).contains(c) by {
                lemma_combination_distinct(n as int, k as int, c);
                lemma_distinct_in_range_len(c, n as int);
            }
        }
        return out;
    }
    extend_combinations(0, n, k, &mut cur, &mut out);
    proof {
        let l = index_lists(out@);
        assert(l.skip(0) == l);
        assert(index_seq(Seq::<usize>::empty()) =~= Seq::<int>::empty());
        assert forall|c: Seq<int>| is_combination(n as int, k as int, c) implies #[trigger] l.contains(c) by {
            assert(c.take(0) =~= Seq::<int>::empty());
        }
    }
    out
}

} // verus!
