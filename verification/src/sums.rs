//! Sums of an integer-valued function over all node identifiers.

use vstd::prelude::*;

verus! {

/// The number of node identifiers.
pub open spec fn id_count() -> nat {
    0x1_0000_0000
}

/// The sum of `f` over the identifiers below `n`.
pub open spec fn sum_below(f: spec_fn(u32) -> int, n: nat) -> int
    decreases n,
{
    if n == 0 {
        0
    } else {
        sum_below(f, (n - 1) as nat) + f((n - 1) as u32)
    }
}

/// The sum of `f` over all identifiers.
pub open spec fn sum_all(f: spec_fn(u32) -> int) -> int {
    sum_below(f, id_count())
}

/// The sum of `f` over the entries of `xs`.
pub open spec fn sum_seq(f: spec_fn(u32) -> int, xs: Seq<u32>) -> int
    decreases xs.len(),
{
    if xs.len() == 0 {
        0
    } else {
        sum_seq(f, xs.drop_last()) + f(xs.last())
    }
}

/// Functions that agree below `n` have the same sum below `n`.
pub proof fn lemma_sum_below_eq(f: spec_fn(u32) -> int, g: spec_fn(u32) -> int, n: nat)
    requires
        n <= id_count(),
        forall|x: u32| x < n ==> #[trigger] f(x) == g(x),
    ensures
        sum_below(f, n) == sum_below(g, n),
    decreases n,
{
    if n > 0 {
        lemma_sum_below_eq(f, g, (n - 1) as nat);
    }
}

/// A sum of terms that are all at most the other's is at most the other sum.
pub proof fn lemma_sum_below_le(f: spec_fn(u32) -> int, g: spec_fn(u32) -> int, n: nat)
    requires
        n <= id_count(),
        forall|x: u32| x < n ==> #[trigger] f(x) <= g(x),
    ensures
        sum_below(f, n) <= sum_below(g, n),
    decreases n,
{
    if n > 0 {
        lemma_sum_below_le(f, g, (n - 1) as nat);
    }
}

/// A sum of the same constant is that constant times the number of terms.
pub proof fn lemma_sum_below_const(f: spec_fn(u32) -> int, c: int, n: nat)
    requires
        n <= id_count(),
        forall|x: u32| x < n ==> #[trigger] f(x) == c,
    ensures
        sum_below(f, n) == c * n,
    decreases n,
{
    if n > 0 {
        lemma_sum_below_const(f, c, (n - 1) as nat);
        assert(c * (n - 1) + c == c * n) by (nonlinear_arith);
    } else {
        assert(c * 0 == 0);
    }
}

/// The sum of a pointwise sum is the sum of the sums.
pub proof fn lemma_sum_below_add(
    f: spec_fn(u32) -> int,
    g: spec_fn(u32) -> int,
    h: spec_fn(u32) -> int,
    n: nat,
)
    requires
        n <= id_count(),
        forall|x: u32| x < n ==> #[trigger] h(x) == f(x) + g(x),
    ensures
        sum_below(h, n) == sum_below(f, n) + sum_below(g, n),
    decreases n,
{
    if n > 0 {
        lemma_sum_below_add(f, g, h, (n - 1) as nat);
    }
}

/// A factor common to all terms can be taken out of the sum.
pub proof fn lemma_sum_below_scale(f: spec_fn(u32) -> int, h: spec_fn(u32) -> int, c: int, n: nat)
    requires
        n <= id_count(),
        forall|x: u32| x < n ==> #[trigger] h(x) == c * f(x),
    ensures
        sum_below(h, n) == c * sum_below(f, n),
    decreases n,
{
    if n > 0 {
        lemma_sum_below_scale(f, h, c, (n - 1) as nat);
        let a = sum_below(f, (n - 1) as nat);
        let b = f((n - 1) as u32);
        assert(c * a + c * b == c * (a + b)) by (nonlinear_arith);
    } else {
        assert(c * 0 == 0);
    }
}

/// Two functions that differ at `x` alone have sums that differ by what they
/// differ at `x`.
pub proof fn lemma_sum_below_differ_at(
    f: spec_fn(u32) -> int,
    g: spec_fn(u32) -> int,
    x: u32,
    n: nat,
)
    requires
        n <= id_count(),
        forall|y: u32| y != x ==> #[trigger] f(y) == g(y),
    ensures
        sum_below(f, n) == sum_below(g, n) + if x < n {
            f(x) - g(x)
        } else {
            0
        },
    decreases n,
{
    if n > 0 {
        lemma_sum_below_differ_at(f, g, x, (n - 1) as nat);
    }
}

/// Functions that agree on the entries of `xs` have the same sum over `xs`.
pub proof fn lemma_sum_seq_eq(f: spec_fn(u32) -> int, g: spec_fn(u32) -> int, xs: Seq<u32>)
    requires
        forall|i: int| 0 <= i < xs.len() ==> f(#[trigger] xs[i]) == g(xs[i]),
    ensures
        sum_seq(f, xs) == sum_seq(g, xs),
    decreases xs.len(),
{
    if xs.len() > 0 {
        let rest = xs.drop_last();
        assert forall|i: int| 0 <= i < rest.len() implies f(#[trigger] rest[i]) == g(rest[i]) by {
            assert(rest[i] == xs[i]);
        }
        lemma_sum_seq_eq(f, g, rest);
        assert(f(xs[xs.len() - 1]) == g(xs[xs.len() - 1]));
    }
}

/// The sum over the first `i + 1` entries is the sum over the first `i` plus
/// the term of entry `i`.
pub proof fn lemma_sum_seq_step(f: spec_fn(u32) -> int, xs: Seq<u32>, i: int)
    requires
        0 <= i < xs.len(),
    ensures
        sum_seq(f, xs.take(i + 1)) == sum_seq(f, xs.take(i)) + f(xs[i]),
{
    assert(xs.take(i + 1).drop_last() == xs.take(i));
}

/// With terms that are never negative, the sum over a prefix of `xs` is
/// between zero and the sum over all of `xs`.
pub proof fn lemma_sum_seq_prefix(f: spec_fn(u32) -> int, xs: Seq<u32>, i: int)
    requires
        0 <= i <= xs.len(),
        forall|k: int| 0 <= k < xs.len() ==> f(#[trigger] xs[k]) >= 0,
    ensures
        0 <= sum_seq(f, xs.take(i)) <= sum_seq(f, xs),
    decreases xs.len() - i,
{
    if i == xs.len() {
        assert(xs.take(i) == xs);
        lemma_sum_seq_nonneg(f, xs);
    } else {
        lemma_sum_seq_prefix(f, xs, i + 1);
        lemma_sum_seq_step(f, xs, i);
        assert(f(xs[i]) >= 0);
        lemma_sum_seq_nonneg(f, xs.take(i));
    }
}

/// A sum of terms that are never negative is not negative.
pub proof fn lemma_sum_seq_nonneg(f: spec_fn(u32) -> int, xs: Seq<u32>)
    requires
        forall|k: int| 0 <= k < xs.len() ==> f(#[trigger] xs[k]) >= 0,
    ensures
        0 <= sum_seq(f, xs),
    decreases xs.len(),
{
    if xs.len() > 0 {
        let rest = xs.drop_last();
        assert forall|k: int| 0 <= k < rest.len() implies f(#[trigger] rest[k]) >= 0 by {
            assert(rest[k] == xs[k]);
        }
        lemma_sum_seq_nonneg(f, rest);
        assert(f(xs[xs.len() - 1]) >= 0);
    }
}

/// A function that is zero outside the entries of a list without repeats
/// has the same sum over the list as over all identifiers.
pub proof fn lemma_sum_seq_all(f: spec_fn(u32) -> int, xs: Seq<u32>)
    requires
        xs.no_duplicates(),
        forall|x: u32| !xs.contains(x) ==> #[trigger] f(x) == 0,
    ensures
        sum_seq(f, xs) == sum_all(f),
    decreases xs.len(),
{
    if xs.len() == 0 {
        assert forall|x: u32| x < id_count() implies #[trigger] f(x) == 0 by {
            assert(!xs.contains(x));
        }
        lemma_sum_below_const(f, 0, id_count());
    } else {
        let last = xs.last();
        let rest = xs.drop_last();
        let g = |y: u32|
            if y == last {
                0
            } else {
                f(y)
            };
        assert forall|x: u32| !rest.contains(x) implies #[trigger] g(x) == 0 by {
            if x != last && xs.contains(x) {
                let i = choose|i: int| 0 <= i < xs.len() && xs[i] == x;
                assert(rest[i] == x);
            }
        }
        lemma_sum_seq_all(g, rest);
        assert forall|i: int| 0 <= i < rest.len() implies f(#[trigger] rest[i]) == g(rest[i]) by {
            assert(rest[i] == xs[i]);
        }
        lemma_sum_seq_eq(f, g, rest);
        lemma_sum_below_differ_at(f, g, last, id_count());
    }
}

/// The row of `h` at `x`, as a function of the second argument.
pub open spec fn row(h: spec_fn(u32, u32) -> int, x: u32) -> spec_fn(u32) -> int {
    |y: u32| h(x, y)
}

/// The column of `h` at `y`, as a function of the first argument.
pub open spec fn column(h: spec_fn(u32, u32) -> int, y: u32) -> spec_fn(u32) -> int {
    |x: u32| h(x, y)
}

/// The sum of each row of `h` over the second arguments below `m`.
pub open spec fn row_sums(h: spec_fn(u32, u32) -> int, m: nat) -> spec_fn(u32) -> int {
    |x: u32| sum_below(row(h, x), m)
}

/// The sum of each column of `h` over the first arguments below `n`.
pub open spec fn column_sums(h: spec_fn(u32, u32) -> int, n: nat) -> spec_fn(u32) -> int {
    |y: u32| sum_below(column(h, y), n)
}

/// The sum of `h` over all pairs of identifiers.
pub open spec fn sum_pairs(h: spec_fn(u32, u32) -> int) -> int {
    sum_all(row_sums(h, id_count()))
}

/// A double sum may be taken by rows or by columns.
pub proof fn lemma_sum_swap(h: spec_fn(u32, u32) -> int, n: nat, m: nat)
    requires
        n <= id_count(),
        m <= id_count(),
    ensures
        sum_below(row_sums(h, m), n) == sum_below(column_sums(h, n), m),
    decreases n,
{
    if n == 0 {
        lemma_sum_below_const(column_sums(h, 0), 0, m);
    } else {
        let p = (n - 1) as nat;
        lemma_sum_swap(h, p, m);
        assert forall|y: u32| y < m implies #[trigger] column_sums(h, n)(y) == column_sums(h, p)(y)
            + row(h, p as u32)(y) by {}
        lemma_sum_below_add(column_sums(h, p), row(h, p as u32), column_sums(h, n), m);
    }
}

/// The sum over all pairs is the same with the two arguments exchanged.
pub proof fn lemma_sum_pairs_swap(h: spec_fn(u32, u32) -> int, k: spec_fn(u32, u32) -> int)
    requires
        forall|x: u32, y: u32| #[trigger] k(x, y) == h(y, x),
    ensures
        sum_pairs(k) == sum_pairs(h),
{
    lemma_sum_swap(h, id_count(), id_count());
    assert forall|x: u32| x < id_count() implies #[trigger] row_sums(k, id_count())(x)
        == column_sums(h, id_count())(x) by {
        lemma_sum_below_eq(row(k, x), column(h, x), id_count());
    }
    lemma_sum_below_eq(row_sums(k, id_count()), column_sums(h, id_count()), id_count());
}

/// The sum of ones over a list is its length.
pub proof fn lemma_sum_seq_ones(f: spec_fn(u32) -> int, xs: Seq<u32>)
    requires
        forall|i: int| 0 <= i < xs.len() ==> f(#[trigger] xs[i]) == 1,
    ensures
        sum_seq(f, xs) == xs.len(),
    decreases xs.len(),
{
    if xs.len() > 0 {
        let rest = xs.drop_last();
        assert forall|i: int| 0 <= i < rest.len() implies f(#[trigger] rest[i]) == 1 by {
            assert(rest[i] == xs[i]);
        }
        lemma_sum_seq_ones(f, rest);
        assert(f(xs[xs.len() - 1]) == 1);
    }
}

/// A sum of terms that are never negative is not negative, and not below
/// any one of its terms.
pub proof fn lemma_sum_all_bounds(f: spec_fn(u32) -> int, x: u32)
    requires
        forall|y: u32| #[trigger] f(y) >= 0,
    ensures
        sum_all(f) >= f(x),
        sum_all(f) >= 0,
{
    let rest = |y: u32|
        if y == x {
            0
        } else {
            f(y)
        };
    let zero = |y: u32| 0int;
    lemma_sum_below_differ_at(f, rest, x, id_count());
    lemma_sum_below_le(zero, rest, id_count());
    lemma_sum_below_const(zero, 0, id_count());
}

/// A function that is zero everywhere but at `x` sums to its value at `x`.
pub proof fn lemma_sum_all_single(f: spec_fn(u32) -> int, x: u32)
    requires
        forall|y: u32| y != x ==> #[trigger] f(y) == 0,
    ensures
        sum_all(f) == f(x),
{
    let zero = |y: u32| 0int;
    lemma_sum_below_differ_at(f, zero, x, id_count());
    lemma_sum_below_const(zero, 0, id_count());
}

/// Functions that agree everywhere have the same sum.
pub proof fn lemma_sum_all_eq(f: spec_fn(u32) -> int, g: spec_fn(u32) -> int)
    requires
        forall|x: u32| #[trigger] f(x) == g(x),
    ensures
        sum_all(f) == sum_all(g),
{
    lemma_sum_below_eq(f, g, id_count());
}

/// The identifiers below `n` in their order.
pub open spec fn ids_below(n: nat) -> Seq<u32> {
    Seq::new(n, |i: int| i as u32)
}

/// The sum over the identifiers below `n` is the sum over their list.
pub proof fn lemma_sum_below_is_seq(f: spec_fn(u32) -> int, n: nat)
    requires
        n <= id_count(),
    ensures
        sum_below(f, n) == sum_seq(f, ids_below(n)),
    decreases n,
{
    if n > 0 {
        let p = (n - 1) as nat;
        lemma_sum_below_is_seq(f, p);
        assert(ids_below(n).drop_last() =~= ids_below(p));
    }
}

/// `h` is `f` after `via`.
pub open spec fn is_composed(
    h: spec_fn(u32) -> int,
    f: spec_fn(u32) -> int,
    via: spec_fn(u32) -> u32,
) -> bool {
    forall|x: u32| #[trigger] h(x) == f(via(x))
}

/// The sum of `f` after `via` over a list is the sum of `f` over the list
/// taken through `via`.
pub proof fn lemma_sum_seq_mapped(
    h: spec_fn(u32) -> int,
    f: spec_fn(u32) -> int,
    via: spec_fn(u32) -> u32,
    xs: Seq<u32>,
)
    requires
        is_composed(h, f, via),
    ensures
        sum_seq(h, xs) == sum_seq(f, xs.map_values(via)),
    decreases xs.len(),
{
    if xs.len() > 0 {
        lemma_sum_seq_mapped(h, f, via, xs.drop_last());
        assert(xs.map_values(via).drop_last() =~= xs.drop_last().map_values(via));
        assert(h(xs.last()) == f(via(xs.last())));
    }
}

/// `back` undoes `via` and `via` undoes `back`: each is a one-to-one
/// renaming of all the identifiers.
pub open spec fn are_inverse(via: spec_fn(u32) -> u32, back: spec_fn(u32) -> u32) -> bool {
    &&& forall|x: u32| #[trigger] back(via(x)) == x
    &&& forall|y: u32| #[trigger] via(back(y)) == y
}

/// A sum over all identifiers does not change when they are renamed one to
/// one.
pub proof fn lemma_sum_all_renamed(
    h: spec_fn(u32) -> int,
    f: spec_fn(u32) -> int,
    via: spec_fn(u32) -> u32,
    back: spec_fn(u32) -> u32,
)
    requires
        is_composed(h, f, via),
        are_inverse(via, back),
    ensures
        sum_all(h) == sum_all(f),
{
    let xs = ids_below(id_count());
    let ys = xs.map_values(via);
    lemma_sum_below_is_seq(h, id_count());
    lemma_sum_seq_mapped(h, f, via, xs);
    assert forall|i: int, j: int| 0 <= i < j < ys.len() implies ys[i] != ys[j] by {
        assert(back(via(xs[i])) == xs[i]);
        assert(back(via(xs[j])) == xs[j]);
    }
    assert forall|y: u32| ys.contains(y) by {
        let x = back(y);
        assert(xs[x as int] == x);
        assert(ys[x as int] == via(x));
        assert(via(back(y)) == y);
    }
    lemma_sum_seq_all(f, ys);
}

} // verus!
