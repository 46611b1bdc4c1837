//! Sequence helpers used by the tree: difference of sequences, ranges of ids,
//! and walks along an index table.

use vstd::prelude::*;
use vstd::laws_eq::{obeys_eq, obeys_eq_spec_properties};
use vstd::set_lib::{lemma_int_range, lemma_len_subset, set_int_range};
use vstd::std_specs::cmp::PartialEqSpec;

verus! {

/// `v` equals (by its `PartialEq`) some element of `ys`.
pub open spec fn appears_in<X: PartialEq>(v: X, ys: Seq<X>) -> bool {
    exists|j: int| 0 <= j < ys.len() && (#[trigger] ys[j]).eq_spec(&v)
}

/// The elements of `xs`, in their order, that equal no element of `ys`.
pub open spec fn except_seq<X: PartialEq>(xs: Seq<X>, ys: Seq<X>) -> Seq<X> {
    xs.filter(|a: X| !appears_in(a, ys))
}

/// The elements of `xs`, in their order, that equal some element of `ys`.
pub open spec fn shared_seq<X: PartialEq>(xs: Seq<X>, ys: Seq<X>) -> Seq<X> {
    xs.filter(|a: X| appears_in(a, ys))
}

/// Difference of sequences: `except_seq(x, y)` holds exactly the elements of
/// `x` that equal no element of `y` (its order is that of `x`, by
/// definition), and its length is that of `x` less the number of elements of
/// `x` that equal some element of `y`.
pub proof fn lemma_except_seq<X: PartialEq>(x: Seq<X>, y: Seq<X>)
    ensures
        forall|v: X| #[trigger] except_seq(x, y).contains(v) <==> x.contains(v) && !appears_in(v, y),
        except_seq(x, y).len() == x.len() - shared_seq(x, y).len(),
    decreases x.len(),
{
    reveal(Seq::filter);
    if x.len() > 0 {
        let init = x.drop_last();
        let last = x.last();
        lemma_except_seq(init, y);
        assert(x == init.push(last));
        assert forall|v: X| #[trigger] except_seq(x, y).contains(v) <==> x.contains(v) && !appears_in(v, y) by {
            if x.contains(v) && !appears_in(v, y) {
                let k = choose|k: int| 0 <= k < x.len() && x[k] == v;
                if k < init.len() {
                    assert(init[k] == v);
                    assert(except_seq(init, y).contains(v));
                }
            }
            if except_seq(x, y).contains(v) && v != last {
                assert(except_seq(init, y).contains(v));
                let k = choose|k: int| 0 <= k < init.len() && init[k] == v;
                assert(x[k] == v);
            }
            if except_seq(x, y).contains(v) && v == last {
                if appears_in(last, y) {
                    assert(except_seq(init, y).contains(v));
                }
                assert(x[x.len() - 1] == v);
            }
        }
    } else {
        assert forall|v: X| #[trigger] except_seq(x, y).contains(v) <==> x.contains(v) && !appears_in(v, y) by {
            assert(except_seq(x, y).len() == 0);
        }
    }
}

/// The ids `0, 1, ..., n - 1` in increasing order.
pub open spec fn ids_below(n: nat) -> Seq<usize> {
    Seq::new(n, |i: int| i as usize)
}

/// Returns `[0, 1, ..., n - 1]`.
pub fn til(n: usize) -> (r: Vec<usize>)
    ensures
        r@ == ids_below(n as nat),
{
    let mut r: Vec<usize> = Vec::new();
    let mut i: usize = 0;
    while i < n
        invariant
            i <= n,
            r@ == ids_below(i as nat),
        decreases n - i,
    {
        r.push(i);
        i = i + 1;
        assert(r@ =~= ids_below(i as nat));
    }
    r
}

/// Whether some element of `ys` equals `v`.
fn appears<X: PartialEq + PartialEqSpec>(v: &X, ys: &Vec<X>) -> (b: bool)
    requires
        X::obeys_eq_spec(),
    ensures
        b == appears_in(*v, ys@),
{
    let mut j: usize = 0;
    while j < ys.len()
        invariant
            X::obeys_eq_spec(),
            j <= ys.len(),
            forall|k: int| 0 <= k < j ==> !(#[trigger] ys@[k]).eq_spec(v),
        decreases ys.len() - j,
    {
        if ys[j] == *v {
            return true;
        }
        j = j + 1;
    }
    false
}

/// Keeps, in order, the elements of `x` that equal no element of `y`.
pub fn except<X: PartialEq + PartialEqSpec>(x: Vec<X>, y: Vec<X>) -> (r: Vec<X>)
    requires
        X::obeys_eq_spec(),
    ensures
        r@ == except_seq(x@, y@),
{
    let ghost xs = x@;
    let mut r: Vec<X> = Vec::new();
    for item in it: x.into_iter()
        invariant
            X::obeys_eq_spec(),
            it.seq() == xs,
            r@ == except_seq(xs.take(it.index() as int), y@),
    {
        let ghost before = xs.take(it.index() as int);
        proof {
            broadcast use Seq::lemma_filter_push;
            assert(xs.take(it.index() + 1) =~= before.push(item));
        }
        if !appears(&item, &y) {
            r.push(item);
        }
    }
    proof {
        assert(xs.take(xs.len() as int) =~= xs);
    }
    r
}

/// The elements of `xs`, in their order, that are not equal to `v`.
pub open spec fn except_single_seq<X: PartialEq>(xs: Seq<X>, v: X) -> Seq<X> {
    xs.filter(|a: X| !a.eq_spec(&v))
}

/// Keeps, in order, the elements of `x` that are not equal to `y`.
pub fn except_single<X: PartialEq + PartialEqSpec>(x: Vec<X>, y: X) -> (r: Vec<X>)
    requires
        X::obeys_eq_spec(),
    ensures
        r@ == except_single_seq(x@, y),
{
    let ghost xs = x@;
    let mut r: Vec<X> = Vec::new();
    for item in it: x.into_iter()
        invariant
            X::obeys_eq_spec(),
            it.seq() == xs,
            r@ == except_single_seq(xs.take(it.index() as int), y),
    {
        let ghost before = xs.take(it.index() as int);
        proof {
            broadcast use Seq::lemma_filter_push;
            assert(xs.take(it.index() + 1) =~= before.push(item));
        }
        if item != y {
            r.push(item);
        }
    }
    proof {
        assert(xs.take(xs.len() as int) =~= xs);
    }
    r
}

/// Why a walk along an index table did not reach a fixed point.
#[derive(Debug, Clone, Copy, PartialEq, Eq, Structural)]
pub enum WalkError {
    /// The walk reached this index, which lies outside the table.
    OutOfBounds(usize),
    /// The walk entered a cycle that is not a single self-loop.
    Cycle,
}

/// Puts `prefix` in front of the ids of a settled, successful walk; other
/// outcomes are kept as they are.
pub open spec fn prepend_walk(
    prefix: Seq<usize>,
    w: Option<Result<Seq<usize>, WalkError>>,
) -> Option<Result<Seq<usize>, WalkError>> {
    match w {
        Some(Ok(rest)) => Some(Ok(prefix + rest)),
        other => other,
    }
}

/// Follows `table` from index `i`, taking at most `fuel` further hops. Each
/// hop goes from `i` to `table[i]` and records the new index, until an index
/// maps to itself (that index is not recorded again). An index outside the
/// table ends the walk with an error; `None` means the walk has not settled
/// within the fuel.
pub open spec fn walk(table: Seq<usize>, i: int, fuel: nat) -> Option<Result<Seq<usize>, WalkError>>
    decreases fuel,
{
    if !(0 <= i < table.len()) {
        Some(Err(WalkError::OutOfBounds(i as usize)))
    } else if table[i] == i {
        Some(Ok(Seq::empty()))
    } else if fuel == 0 {
        None
    } else {
        prepend_walk(seq![table[i]], walk(table, table[i] as int, (fuel - 1) as nat))
    }
}

/// The outcome of walking `table` from `start`: the visited indices up to the
/// first self-referencing one, or the reason the walk fails. A walk that has
/// not settled after as many hops as the table has entries is caught in a
/// cycle.
pub open spec fn walk_outcome(table: Seq<usize>, start: int) -> Result<Seq<usize>, WalkError> {
    match walk(table, start, table.len()) {
        Some(outcome) => outcome,
        None => Err(WalkError::Cycle),
    }
}

/// The index reached from `i` after `k` hops along `table`.
pub open spec fn hop(table: Seq<usize>, i: int, k: nat) -> int
    decreases k,
{
    if k == 0 {
        i
    } else {
        hop(table, table[i] as int, (k - 1) as nat)
    }
}

/// `i` is an index of `table` that does not map to itself.
pub open spec fn moves_on(table: Seq<usize>, i: int) -> bool {
    0 <= i < table.len() && table[i] != i
}

proof fn lemma_walk_unsettled(table: Seq<usize>, i: int, fuel: nat)
    ensures
        walk(table, i, fuel) is None <==> forall|k: nat| k <= fuel ==> moves_on(table, #[trigger] hop(table, i, k)),
    decreases fuel,
{
    assert(hop(table, i, 0) == i);
    if moves_on(table, i) && fuel > 0 {
        let next = table[i] as int;
        lemma_walk_unsettled(table, next, (fuel - 1) as nat);
        assert forall|k: nat| 0 < k <= fuel implies #[trigger] hop(table, i, k) == hop(table, next, (k - 1) as nat) by {}
        if forall|k: nat| k <= fuel ==> moves_on(table, #[trigger] hop(table, i, k)) {
            assert forall|k: nat| k <= (fuel - 1) as nat implies moves_on(table, #[trigger] hop(table, next, k)) by {
                assert(hop(table, i, k + 1) == hop(table, next, k));
            }
        }
        if walk(table, next, (fuel - 1) as nat) is None {
            assert forall|k: nat| k <= fuel implies moves_on(table, #[trigger] hop(table, i, k)) by {
                if k > 0 {
                    assert(hop(table, next, (k - 1) as nat) == hop(table, i, k));
                }
            }
        }
    }
}

proof fn lemma_hop_add(table: Seq<usize>, i: int, a: nat, b: nat)
    ensures
        hop(table, i, a + b) == hop(table, hop(table, i, a), b),
    decreases a,
{
    if a > 0 {
        lemma_hop_add(table, table[i] as int, (a - 1) as nat, b);
        assert((a + b - 1) as nat == (a - 1) as nat + b);
    }
}

/// Among the first `table.len() + 1` indices of a walk that stays inside the
/// table, two are equal.
proof fn lemma_hops_repeat(table: Seq<usize>, i: int)
    requires
        forall|k: nat| k <= table.len() ==> moves_on(table, #[trigger] hop(table, i, k)),
    ensures
        exists|a: nat, b: nat| a < b <= table.len() && hop(table, i, a) == hop(table, i, b),
{
    let n = table.len();
    let hops = Seq::new(n + 1, |k: int| hop(table, i, k as nat));
    if !(exists|a: nat, b: nat| a < b <= n && hop(table, i, a) == hop(table, i, b)) {
        assert(hops.no_duplicates()) by {
            assert forall|a: int, b: int| 0 <= a < hops.len() && 0 <= b < hops.len() && a != b
                implies hops[a] != hops[b] by {
                if a < b {
                    assert(!(hop(table, i, a as nat) == hop(table, i, b as nat)));
                } else {
                    assert(!(hop(table, i, b as nat) == hop(table, i, a as nat)));
                }
            }
        }
        hops.unique_seq_to_set();
        assert(hops.to_set().subset_of(set_int_range(0, n as int))) by {
            assert forall|v: int| hops.to_set().contains(v) implies set_int_range(0, n as int).contains(v) by {
                let k = choose|k: int| 0 <= k < hops.len() && hops[k] == v;
                assert(moves_on(table, hop(table, i, k as nat)));
            }
        }
        lemma_int_range(0, n as int);
        lemma_len_subset(hops.to_set(), set_int_range(0, n as int));
    }
}

proof fn lemma_moves_forever(table: Seq<usize>, i: int, a: nat, b: nat, k: nat)
    requires
        a < b <= table.len(),
        hop(table, i, a) == hop(table, i, b),
        forall|j: nat| j <= table.len() ==> moves_on(table, #[trigger] hop(table, i, j)),
    ensures
        moves_on(table, hop(table, i, k)),
    decreases k,
{
    if k > table.len() {
        let rest = (k - b) as nat;
        let earlier = (a + rest) as nat;
        lemma_hop_add(table, i, b, rest);
        lemma_hop_add(table, i, a, rest);
        assert(b + rest == k);
        lemma_moves_forever(table, i, a, b, earlier);
    }
}

/// A walk that has not settled after as many hops as the table has entries
/// never settles, however many more hops it is given: a walk reported as a
/// `WalkError::Cycle` is caught in a genuine cycle.
pub proof fn lemma_unsettled_walk_never_settles(table: Seq<usize>, start: int, fuel: nat)
    requires
        walk(table, start, table.len()) is None,
    ensures
        walk(table, start, fuel) is None,
{
    lemma_walk_unsettled(table, start, table.len());
    lemma_hops_repeat(table, start);
    let (a, b) = choose|a: nat, b: nat| a < b <= table.len() && hop(table, start, a) == hop(table, start, b);
    assert forall|k: nat| k <= fuel implies moves_on(table, #[trigger] hop(table, start, k)) by {
        lemma_moves_forever(table, start, a, b, k);
    }
    lemma_walk_unsettled(table, start, fuel);
}

proof fn lemma_walk_settled_stays(table: Seq<usize>, i: int, fuel: nat, more: nat)
    requires
        walk(table, i, fuel) is Some,
        fuel <= more,
    ensures
        walk(table, i, more) == walk(table, i, fuel),
    decreases fuel,
{
    if moves_on(table, i) && fuel > 0 {
        lemma_walk_settled_stays(table, table[i] as int, (fuel - 1) as nat, (more - 1) as nat);
    }
}

/// Whenever a walk settles within some number of hops, `walk_outcome` is
/// that settled result: bounding the walk by the table's length loses
/// nothing.
pub proof fn lemma_walk_outcome_exact(table: Seq<usize>, start: int, fuel: nat)
    requires
        walk(table, start, fuel) is Some,
    ensures
        Some(walk_outcome(table, start)) == walk(table, start, fuel),
{
    if fuel <= table.len() {
        lemma_walk_settled_stays(table, start, fuel, table.len());
    } else {
        if walk(table, start, table.len()) is None {
            lemma_unsettled_walk_never_settles(table, start, fuel);
        }
        lemma_walk_settled_stays(table, start, table.len(), fuel);
    }
}

proof fn lemma_prepend_walk_empty(w: Option<Result<Seq<usize>, WalkError>>)
    ensures
        prepend_walk(Seq::empty(), w) == w,
{
    match w {
        Some(Ok(rest)) => {
            assert(Seq::<usize>::empty() + rest =~= rest);
        },
        _ => {},
    }
}

proof fn lemma_prepend_walk_push(r: Seq<usize>, a: usize, w: Option<Result<Seq<usize>, WalkError>>)
    ensures
        prepend_walk(r, prepend_walk(seq![a], w)) == prepend_walk(r.push(a), w),
{
    match w {
        Some(Ok(rest)) => {
            assert(r + (seq![a] + rest) =~= r.push(a) + rest);
        },
        _ => {},
    }
}

/// Follows the index table `x` from `y` until an index maps to itself, and
/// returns the indices met after `y`, without repeating the fixed point.
/// Fails on an index outside the table, and on a cycle of more than one
/// index.
pub fn exhaust(x: &Vec<usize>, y: usize) -> (r: Result<Vec<usize>, WalkError>)
    ensures
        match r {
            Ok(v) => walk_outcome(x@, y as int) == Ok::<Seq<usize>, WalkError>(v@),
            Err(e) => walk_outcome(x@, y as int) == Err::<Seq<usize>, WalkError>(e),
        },
{
    let n = x.len();
    let mut i: usize = y;
    let mut r: Vec<usize> = Vec::new();
    let mut steps: usize = 0;
    proof {
        lemma_prepend_walk_empty(walk(x@, y as int, n as nat));
    }
    loop
        invariant
            n == x.len(),
            steps <= n,
            prepend_walk(r@, walk(x@, i as int, (n - steps) as nat)) == walk(x@, y as int, n as nat),
        decreases n - steps,
    {
        if i >= n {
            return Err(WalkError::OutOfBounds(i));
        }
        let next = x[i];
        if next == i {
            assert(r@ + Seq::<usize>::empty() =~= r@);
            return Ok(r);
        }
        if steps == n {
            return Err(WalkError::Cycle);
        }
        proof {
            lemma_prepend_walk_push(r@, next, walk(x@, next as int, (n - steps - 1) as nat));
        }
        r.push(next);
        i = next;
        steps = steps + 1;
    }
}

/// `k` is the first index of `xs` whose element equals `v`.
pub open spec fn is_first_match<X: PartialEq>(xs: Seq<X>, v: X, k: int) -> bool {
    &&& 0 <= k < xs.len()
    &&& xs[k].eq_spec(&v)
    &&& forall|m: int| 0 <= m < k ==> !(#[trigger] xs[m]).eq_spec(&v)
}

/// The first index of `xs` whose element equals `xs[i]`, or `i` itself when
/// there is none.
pub open spec fn first_equal_index<X: PartialEq>(xs: Seq<X>, i: int) -> int {
    if exists|k: int| is_first_match(xs, xs[i], k) {
        choose|k: int| is_first_match(xs, xs[i], k)
    } else {
        i
    }
}

/// The indices recorded by moving from `y` to the first index holding an
/// element equal to `xs[y]`: that index alone when it differs from `y`,
/// nothing otherwise (also when `y` lies outside `xs`).
pub open spec fn canonical_hops<X: PartialEq>(xs: Seq<X>, y: int) -> Seq<usize> {
    if 0 <= y < xs.len() && first_equal_index(xs, y) != y {
        seq![first_equal_index(xs, y) as usize]
    } else {
        Seq::empty()
    }
}

/// Returns the first index of `x` whose element equals `x[i]`, if any.
fn first_equal<X: PartialEq + PartialEqSpec>(x: &Vec<X>, i: usize) -> (r: Option<usize>)
    requires
        X::obeys_eq_spec(),
        i < x.len(),
    ensures
        match r {
            Some(k) => is_first_match(x@, x@[i as int], k as int),
            None => forall|k: int| 0 <= k < x.len() ==> !(#[trigger] x@[k]).eq_spec(&x@[i as int]),
        },
{
    let mut k: usize = 0;
    while k < x.len()
        invariant
            X::obeys_eq_spec(),
            i < x.len(),
            k <= x.len(),
            forall|m: int| 0 <= m < k ==> !(#[trigger] x@[m]).eq_spec(&x@[i as int]),
        decreases x.len() - k,
    {
        if x[k] == x[i] {
            return Some(k);
        }
        k = k + 1;
    }
    None
}

proof fn lemma_first_match_unique<X: PartialEq>(xs: Seq<X>, v: X, a: int, b: int)
    requires
        is_first_match(xs, v, a),
        is_first_match(xs, v, b),
    ensures
        a == b,
{
    if a < b {
        assert(!xs[a].eq_spec(&v));
    } else if b < a {
        assert(!xs[b].eq_spec(&v));
    }
}

/// Under a symmetric and transitive equality, the first index equal to
/// `xs[i]` comes no later than `i`, and is its own first equal index.
proof fn lemma_first_equal_index_settles<X: PartialEq>(xs: Seq<X>, i: int, k: int)
    requires
        obeys_eq::<X>(),
        0 <= i < xs.len(),
        is_first_match(xs, xs[i], k),
    ensures
        first_equal_index(xs, i) == k,
        k <= i,
        is_first_match(xs, xs[k], k),
        first_equal_index(xs, k) == k,
{
    reveal(obeys_eq_spec_properties);
    let v = xs[i];
    assert(v.eq_spec(&xs[k]));
    assert(v.eq_spec(&v));
    assert(is_first_match(xs, v, k));
    let c = choose|c: int| is_first_match(xs, v, c);
    lemma_first_match_unique(xs, v, c, k);
    assert forall|m: int| 0 <= m < k implies !(#[trigger] xs[m]).eq_spec(&xs[k]) by {
        if xs[m].eq_spec(&xs[k]) {
            assert(xs[m].eq_spec(&v));
        }
    }
    assert(xs[k].eq_spec(&xs[k]));
    assert(is_first_match(xs, xs[k], k));
    let d = choose|d: int| is_first_match(xs, xs[k], d);
    lemma_first_match_unique(xs, xs[k], d, k);
}

/// Moves from `y` to the first index of `x` that holds an element equal to
/// `x[y]`, and so on until the index no longer changes; returns the indices
/// moved to. An index outside `x` ends the walk at once.
pub fn _exhaust<X: PartialEq + PartialEqSpec>(x: Vec<X>, y: usize) -> (r: Vec<usize>)
    requires
        obeys_eq::<X>(),
    ensures
        r@ == canonical_hops(x@, y as int),
{
    let mut i: usize = y;
    let mut r: Vec<usize> = Vec::new();
    loop
        invariant
            obeys_eq::<X>(),
            r@.len() == 0 ==> i == y,
            r@.len() != 0 ==> r@ == canonical_hops(x@, y as int) && i == first_equal_index(x@, y as int)
                && r@ == seq![i],
        ensures
            r@ == canonical_hops(x@, y as int),
        decreases i,
    {
        let last = i;
        if i >= x.len() {
            break;
        }
        i = match first_equal(&x, i) {
            Some(k) => k,
            None => i,
        };
        proof {
            if i != last {
                lemma_first_equal_index_settles(x@, last as int, i as int);
            } else if exists|k: int| is_first_match(x@, x@[last as int], k) {
                let k = choose|k: int| is_first_match(x@, x@[last as int], k);
                lemma_first_equal_index_settles(x@, last as int, k);
            }
            if r@.len() != 0 {
                let y0 = y as int;
                let k0 = first_equal_index(x@, y0);
                if exists|k: int| is_first_match(x@, x@[y0], k) {
                    let k = choose|k: int| is_first_match(x@, x@[y0], k);
                    lemma_first_equal_index_settles(x@, y0, k);
                }
            }
        }
        if i == last {
            break;
        }
        r.push(i);
    }
    r
}

} // verus!
