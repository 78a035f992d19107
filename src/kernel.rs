//! Application of a small matrix to a subset of the binary axes of a state.
//!
//! A state of `2ⁿ` entries is read as a tensor over `n` binary axes. Axis `0`
//! is the most significant bit of an entry's index and axis `n - 1` the least.
//! A matrix of dimension `2ᵏ` acting on the axes `axes[0], …, axes[k-1]` reads
//! its local index in the same order: `axes[0]` carries the most significant
//! local bit. For each assignment of the other (untouched) axes, the kernel
//! gathers the `2ᵏ` entries of that fiber, multiplies them by the matrix and
//! writes them back.
use vstd::prelude::*;
use vstd::arithmetic::power2::{pow2, lemma_pow2_unfold, lemma_pow2_pos, lemma_pow2_adds, lemma_pow2_strictly_increases, lemma2_to64};
use vstd::set_lib::{set_int_range, lemma_int_range, lemma_len_subset, lemma_map_size, lemma_subset_equality};
use vstd::relations::injective_on;
use vstd::arithmetic::div_mod::lemma_fundamental_div_mod;
use vstd::arithmetic::div_mod::lemma_div_denominator;
use crate::amplitude::Amplitude;
use crate::matrix::{row_times, SquareMatrix};

verus! {

/// Why a matrix cannot be applied to the given axes.
#[derive(Clone, Copy, Debug, PartialEq, Eq)]
pub enum KernelError {
    /// The matrix dimension is not `2^|axes|`.
    DimensionMismatch,
    /// An axis is not below the number of axes of the state.
    AxisOutOfRange,
    /// An axis is named twice.
    DuplicateAxis,
}

/// Bit `i` of `x`.
pub open spec fn bit(x: nat, i: nat) -> nat {
    (x / pow2(i)) % 2
}

/// The position at which axis `a` is named in `axes`.
pub open spec fn slot(axes: Seq<usize>, a: nat) -> int {
    choose|j: int| 0 <= j < axes.len() && axes[j] == a
}

/// The axes are distinct and each is below `n`.
pub open spec fn valid_axes(axes: Seq<usize>, n: nat) -> bool {
    &&& axes.no_duplicates()
    &&& forall|j: int| 0 <= j < axes.len() ==> #[trigger] axes[j] < n
}

/// The number formed by the bits of axes `0 .. m` (axis `m - 1` least
/// significant) for fiber `c` and local index `l`: axis `a` named in `axes`
/// carries bit `k - 1 - slot(a)` of `l`, with `k = axes.len()`; the untouched
/// axes carry the bits of `c`, its lowest bit on the last untouched axis.
pub open spec fn prefix_index(axes: Seq<usize>, c: nat, l: nat, m: nat) -> nat
    decreases m,
{
    if m == 0 {
        0
    } else {
        let a = (m - 1) as nat;
        if axes.contains(a as usize) {
            2 * prefix_index(axes, c, l, a) + bit(l, (axes.len() - 1 - slot(axes, a)) as nat)
        } else {
            2 * prefix_index(axes, c / 2, l, a) + c % 2
        }
    }
}

/// Index, in a state over `n` axes, of entry `l` of fiber `c` for a matrix
/// acting on `axes`.
pub open spec fn fiber_index(axes: Seq<usize>, n: nat, c: nat, l: nat) -> nat {
    prefix_index(axes, c, l, n)
}

/// The bits of the first `m` axes form a number below `2ᵐ`.
pub proof fn lemma_prefix_index_bound(axes: Seq<usize>, c: nat, l: nat, m: nat)
    ensures
        prefix_index(axes, c, l, m) < pow2(m),
    decreases m,
{
    if m == 0 {
        lemma_pow2_pos(0);
        assert(pow2(0) == 1) by {
            vstd::arithmetic::power2::lemma2_to64();
        }
    } else {
        let a = (m - 1) as nat;
        lemma_pow2_unfold(m);
        lemma_prefix_index_bound(axes, c, l, a);
        lemma_prefix_index_bound(axes, c / 2, l, a);
    }
}

/// The untouched bits and the target bits of an index are laid out
/// independently: entry `l` of fiber `c` is the fiber's first entry plus the
/// offset of `l` in fiber `0`.
pub proof fn lemma_fiber_split(axes: Seq<usize>, c: nat, l: nat, m: nat)
    ensures
        prefix_index(axes, c, l, m) == prefix_index(axes, c, 0, m) + prefix_index(axes, 0, l, m),
    decreases m,
{
    if m > 0 {
        let a = (m - 1) as nat;
        lemma_fiber_split(axes, c, l, a);
        lemma_fiber_split(axes, c / 2, l, a);
        if axes.contains(a as usize) {
            let s = (axes.len() - 1 - slot(axes, a)) as nat;
            lemma_pow2_pos(s);
            assert(bit(0, s) == 0);
        }
    }
}

/// In a list of distinct axes, the axis at position `j` is found at `j`.
pub(crate) proof fn lemma_slot(axes: Seq<usize>, j: int)
    requires
        axes.no_duplicates(),
        0 <= j < axes.len(),
    ensures
        slot(axes, axes[j] as nat) == j,
{
    let a = axes[j] as nat;
    assert(exists|i: int| 0 <= i < axes.len() && axes[i] == a);
    let s = slot(axes, a);
    assert(0 <= s < axes.len() && axes[s] == a);
}

/// Distinct axes below `n` are at most `n` in number.
pub(crate) proof fn lemma_axes_fit(axes: Seq<usize>, n: nat)
    requires
        valid_axes(axes, n),
    ensures
        axes.len() <= n,
{
    let s = axes.map_values(|a: usize| a as int);
    assert(s.no_duplicates()) by {
        assert forall|i: int, j: int| 0 <= i < s.len() && 0 <= j < s.len() && i != j
            implies s[i] != s[j] by {
            assert(axes[i] != axes[j]);
        }
    }
    s.unique_seq_to_set();
    assert(s.to_set().subset_of(set_int_range(0, n as int))) by {
        assert forall|x: int| s.to_set().contains(x) implies set_int_range(0, n as int).contains(x) by {
            let i = choose|i: int| 0 <= i < s.len() && s[i] == x;
            assert(axes[i] < n);
        }
    }
    lemma_int_range(0, n as int);
    lemma_len_subset(s.to_set(), set_int_range(0, n as int));
}

/// The number of untouched axes among axes `0 .. m`.
pub open spec fn untouched_count(axes: Seq<usize>, m: nat) -> nat
    decreases m,
{
    if m == 0 {
        0
    } else {
        let a = (m - 1) as nat;
        untouched_count(axes, a) + if axes.contains(a as usize) { 0nat } else { 1nat }
    }
}

/// The fiber an index lies in: the bits of its untouched axes.
pub open spec fn fiber_of(axes: Seq<usize>, g: nat, m: nat) -> nat
    decreases m,
{
    if m == 0 {
        0
    } else {
        let a = (m - 1) as nat;
        if axes.contains(a as usize) {
            fiber_of(axes, g / 2, a)
        } else {
            2 * fiber_of(axes, g / 2, a) + g % 2
        }
    }
}

/// The fiber of entry `l` of fiber `c` is `c`.
pub proof fn lemma_fiber_of(axes: Seq<usize>, c: nat, l: nat, m: nat)
    requires
        c < pow2(untouched_count(axes, m)),
    ensures
        fiber_of(axes, prefix_index(axes, c, l, m), m) == c,
    decreases m,
{
    if m == 0 {
        lemma2_to64();
    } else {
        let a = (m - 1) as nat;
        let g = prefix_index(axes, c, l, m);
        if axes.contains(a as usize) {
            lemma_fiber_of(axes, c, l, a);
            assert(g / 2 == prefix_index(axes, c, l, a));
        } else {
            lemma_pow2_unfold(untouched_count(axes, m));
            lemma_fiber_of(axes, c / 2, l, a);
            assert(g / 2 == prefix_index(axes, c / 2, l, a));
        }
    }
}

/// Bit `m - 1 - a` of an index, for a target axis `a < m`, is the local bit
/// that axis carries.
pub proof fn lemma_target_bit(axes: Seq<usize>, c: nat, l: nat, m: nat, j: int)
    requires
        0 <= j < axes.len(),
        axes.no_duplicates(),
        axes[j] < m,
    ensures
        bit(prefix_index(axes, c, l, m), (m - 1 - axes[j]) as nat) == bit(l, (axes.len() - 1 - j) as nat),
    decreases m,
{
    let a = (m - 1) as nat;
    let g = prefix_index(axes, c, l, m);
    lemma_slot(axes, j);
    assert(axes.contains(axes[j]));
    if axes[j] == a {
        lemma2_to64();
        assert(g / pow2(0) == g);
    } else {
        let t = (m - 2 - axes[j]) as nat;
        let c2 = if axes.contains(a as usize) { c } else { c / 2 };
        lemma_target_bit(axes, c2, l, a, j);
        assert(g / 2 == prefix_index(axes, c2, l, a));
        lemma_pow2_unfold(t + 1);
        lemma_pow2_pos(t);
        lemma_div_denominator(g as int, 2, pow2(t) as int);
        assert((t + 1) as nat == (m - 1 - axes[j]) as nat);
    }
}

/// Two numbers below `2ᵏ` that differ differ in some bit below `k`.
pub(crate) proof fn lemma_differing_bit(x: nat, y: nat, k: nat)
    requires
        x < pow2(k),
        y < pow2(k),
        x != y,
    ensures
        exists|p: nat| p < k && #[trigger] bit(x, p) != bit(y, p),
    decreases k,
{
    lemma2_to64();
    if k == 0 {
    } else if x % 2 != y % 2 {
        assert(bit(x, 0) != bit(y, 0));
    } else {
        let km = (k - 1) as nat;
        lemma_pow2_unfold(k);
        lemma_differing_bit(x / 2, y / 2, km);
        let p = choose|p: nat| p < km && #[trigger] bit(x / 2, p) != bit(y / 2, p);
        lemma_pow2_pos(p);
        lemma_pow2_unfold(p + 1);
        lemma_div_denominator(x as int, 2, pow2(p) as int);
        lemma_div_denominator(y as int, 2, pow2(p) as int);
        assert(bit(x, p + 1) != bit(y, p + 1));
    }
}

/// The axes below `m` that are named in `axes`.
spec fn named_count(axes: Seq<usize>, m: nat) -> nat
    decreases m,
{
    if m == 0 {
        0
    } else {
        let a = (m - 1) as nat;
        named_count(axes, a) + if axes.contains(a as usize) { 1nat } else { 0nat }
    }
}

/// Every axis below `m` is named or untouched.
proof fn lemma_counts_add(axes: Seq<usize>, m: nat)
    ensures
        untouched_count(axes, m) + named_count(axes, m) == m,
    decreases m,
{
    if m > 0 {
        lemma_counts_add(axes, (m - 1) as nat);
    }
}

/// Dropping the last of distinct axes removes it from the count.
proof fn lemma_named_count_drop(axes: Seq<usize>, m: nat)
    requires
        axes.len() > 0,
        axes.no_duplicates(),
        m <= usize::MAX + 1,
    ensures
        named_count(axes, m) == named_count(axes.drop_last(), m) + if axes.last() < m { 1nat } else { 0nat },
    decreases m,
{
    let rest = axes.drop_last();
    if m > 0 {
        let a = (m - 1) as nat;
        lemma_named_count_drop(axes, a);
        let x = a as usize;
        assert(x as nat == a);
        let last = axes.last();
        assert(axes[axes.len() - 1] == last);
        if x == last {
            assert(axes.contains(x));
            if rest.contains(x) {
                let i = choose|i: int| 0 <= i < rest.len() && rest[i] == x;
                assert(axes[i] == x);
            }
        } else {
            if rest.contains(x) {
                let i = choose|i: int| 0 <= i < rest.len() && rest[i] == x;
                assert(axes[i] == x);
            }
            if axes.contains(x) {
                let i = choose|i: int| 0 <= i < axes.len() && axes[i] == x;
                assert(i != axes.len() - 1);
                assert(rest[i] == x);
            }
        }
    }
}

/// Of `n` axes, `|axes|` are named and the rest untouched.
pub proof fn lemma_untouched_count(axes: Seq<usize>, n: nat)
    requires
        valid_axes(axes, n),
        n <= usize::MAX,
    ensures
        untouched_count(axes, n) == n - axes.len(),
    decreases axes.len(),
{
    lemma_counts_add(axes, n);
    lemma_axes_fit(axes, n);
    lemma_named_count_full(axes, n);
}

/// Distinct axes below `n` are all counted below `n`.
proof fn lemma_named_count_full(axes: Seq<usize>, n: nat)
    requires
        valid_axes(axes, n),
        n <= usize::MAX,
    ensures
        named_count(axes, n) == axes.len(),
    decreases axes.len(),
{
    if axes.len() == 0 {
        lemma_named_count_empty(axes, n);
    } else {
        let rest = axes.drop_last();
        assert(valid_axes(rest, n)) by {
            assert forall|i: int| 0 <= i < rest.len() implies #[trigger] rest[i] < n by {
                assert(rest[i] == axes[i]);
            }
        }
        lemma_named_count_full(rest, n);
        lemma_named_count_drop(axes, n);
    }
}

/// No axis is named in an empty list.
proof fn lemma_named_count_empty(axes: Seq<usize>, m: nat)
    requires
        axes.len() == 0,
    ensures
        named_count(axes, m) == 0,
    decreases m,
{
    if m > 0 {
        lemma_named_count_empty(axes, (m - 1) as nat);
    }
}

/// Distinct fibers, or distinct local indices, address distinct entries:
/// applying a matrix along the fibers writes every entry at most once.
pub proof fn lemma_fibers_disjoint(axes: Seq<usize>, n: nat, c1: nat, l1: nat, c2: nat, l2: nat)
    requires
        valid_axes(axes, n),
        n <= usize::MAX,
        c1 < pow2((n - axes.len()) as nat),
        c2 < pow2((n - axes.len()) as nat),
        l1 < pow2(axes.len()),
        l2 < pow2(axes.len()),
        c1 != c2 || l1 != l2,
    ensures
        fiber_index(axes, n, c1, l1) != fiber_index(axes, n, c2, l2),
{
    lemma_untouched_count(axes, n);
    lemma_axes_fit(axes, n);
    if c1 != c2 {
        lemma_fiber_of(axes, c1, l1, n);
        lemma_fiber_of(axes, c2, l2, n);
    } else {
        let k = axes.len();
        lemma_differing_bit(l1, l2, k);
        let p = choose|p: nat| p < k && #[trigger] bit(l1, p) != bit(l2, p);
        let j = (k - 1 - p) as int;
        assert(axes[j] < n);
        lemma_target_bit(axes, c1, l1, n, j);
        lemma_target_bit(axes, c2, l2, n, j);
        assert((k - 1 - j) as nat == p);
    }
}

/// Every entry of the state lies in a fiber: together with the fibers being
/// disjoint, the fibers of a matrix acting on `axes` partition the state.
pub proof fn lemma_fibers_cover(axes: Seq<usize>, n: nat, g: nat)
    requires
        valid_axes(axes, n),
        n <= usize::MAX,
        g < pow2(n),
    ensures
        exists|c: nat, l: nat| c < pow2((n - axes.len()) as nat) && l < pow2(axes.len())
            && #[trigger] fiber_index(axes, n, c, l) == g,
{
    lemma_axes_fit(axes, n);
    let k = axes.len();
    let w = pow2(k) as int;
    let u = pow2((n - k) as nat) as int;
    lemma_pow2_adds((n - k) as nat, k);
    assert((n - k) as nat + k == n);
    lemma_pow2_pos(k);
    let total = pow2(n) as int;
    assert(total == u * w);
    let h = |p: int| fiber_index(axes, n, (p / w) as nat, (p % w) as nat) as int;
    let dom = set_int_range(0, total);
    lemma_int_range(0, total);
    assert(injective_on(h, dom)) by {
        assert forall|p1: int, p2: int| dom.contains(p1) && dom.contains(p2) && #[trigger] h(p1) == #[trigger] h(p2)
            implies p1 == p2 by {
            lemma_fundamental_div_mod(p1, w);
            lemma_fundamental_div_mod(p2, w);
            assert(p1 / w < u) by (nonlinear_arith)
                requires
                    0 <= p1 < u * w,
                    w > 0,
            ;
            assert(p2 / w < u) by (nonlinear_arith)
                requires
                    0 <= p2 < u * w,
                    w > 0,
            ;
            if p1 / w != p2 / w || p1 % w != p2 % w {
                lemma_fibers_disjoint(axes, n, (p1 / w) as nat, (p1 % w) as nat, (p2 / w) as nat, (p2 % w) as nat);
            }
        }
    }
    let image = dom.map(h);
    lemma_map_size(dom, image, h);
    assert(image.subset_of(dom)) by {
        assert forall|x: int| image.contains(x) implies dom.contains(x) by {
            let p = choose|p: int| dom.contains(p) && h(p) == x;
            lemma_prefix_index_bound(axes, (p / w) as nat, (p % w) as nat, n);
        }
    }
    lemma_subset_equality(image, dom);
    assert(dom.contains(g as int));
    assert(image.contains(g as int));
    let p = choose|p: int| dom.contains(p) && h(p) == g as int;
    lemma_fundamental_div_mod(p, w);
    assert(p / w < u) by (nonlinear_arith)
        requires
            0 <= p < u * w,
            w > 0,
    ;
    let c = (p / w) as nat;
    let l = (p % w) as nat;
    assert(fiber_index(axes, n, c, l) == g);
}

/// `[2⁰, 2¹, …, 2ⁿ]`.
fn powers_of_two(n: usize) -> (pw: Vec<usize>)
    requires
        pow2(n as nat) <= usize::MAX,
    ensures
        pw.len() == n + 1,
        forall|i: int| 0 <= i <= n ==> #[trigger] pw@[i] == pow2(i as nat),
{
    let mut pw: Vec<usize> = Vec::new();
    proof {
        vstd::arithmetic::power2::lemma2_to64();
    }
    pw.push(1);
    let mut i: usize = 0;
    while i < n
        invariant
            i <= n,
            pow2(n as nat) <= usize::MAX,
            pw.len() == i + 1,
            forall|t: int| 0 <= t <= i ==> #[trigger] pw@[t] == pow2(t as nat),
        decreases n - i,
    {
        proof {
            lemma_pow2_unfold((i + 1) as nat);
            if i + 1 < n {
                lemma_pow2_strictly_increases((i + 1) as nat, n as nat);
            }
        }
        let next = 2 * pw[i];
        pw.push(next);
        i = i + 1;
    }
    pw
}

/// `2ⁿ`.
pub(crate) fn power_of_two(n: usize) -> (p: usize)
    requires
        pow2(n as nat) <= usize::MAX,
    ensures
        p == pow2(n as nat),
{
    let pw = powers_of_two(n);
    pw[n]
}

/// Distinct exponents give distinct powers of two.
pub(crate) proof fn lemma_pow2_injective(a: nat, b: nat)
    requires
        a != b,
    ensures
        pow2(a) != pow2(b),
{
    if a < b {
        lemma_pow2_strictly_increases(a, b);
    } else {
        lemma_pow2_strictly_increases(b, a);
    }
}

/// `m < 2ᵐ`.
pub(crate) proof fn lemma_below_pow2(m: nat)
    ensures
        m < pow2(m),
    decreases m,
{
    if m == 0 {
        lemma2_to64();
    } else {
        lemma_below_pow2((m - 1) as nat);
        lemma_pow2_unfold(m);
        lemma_pow2_pos((m - 1) as nat);
    }
}

/// For each axis below `n`, its position in `axes`, or `axes.len()` where it
/// is untouched.
fn axis_slots(n: usize, axes: &[usize]) -> (r: Result<Vec<usize>, KernelError>)
    ensures
        r is Ok <==> valid_axes(axes@, n as nat),
        r == Err::<Vec<usize>, KernelError>(KernelError::AxisOutOfRange)
            ==> exists|j: int| 0 <= j < axes.len() && axes@[j] >= n,
        r == Err::<Vec<usize>, KernelError>(KernelError::DuplicateAxis) ==> !axes@.no_duplicates(),
        r is Err ==> r != Err::<Vec<usize>, KernelError>(KernelError::DimensionMismatch),
        r matches Ok(slots) ==> {
            &&& slots.len() == n
            &&& forall|a: int| 0 <= a < n ==> (#[trigger] slots@[a] < axes.len() <==> axes@.contains(a as usize))
            &&& forall|a: int| 0 <= a < n && slots@[a] < axes.len() ==> axes@[#[trigger] slots@[a] as int] == a
        },
{
    let k = axes.len();
    let mut slots: Vec<usize> = Vec::new();
    let mut a: usize = 0;
    while a < n
        invariant
            a <= n,
            k == axes.len(),
            slots.len() == a,
            forall|t: int| 0 <= t < a ==> #[trigger] slots@[t] == k,
        decreases n - a,
    {
        slots.push(k);
        a = a + 1;
    }
    let mut j: usize = 0;
    while j < k
        invariant
            j <= k,
            k == axes.len(),
            slots.len() == n,
            valid_axes(axes@.take(j as int), n as nat),
            forall|t: int| 0 <= t < n ==> (#[trigger] slots@[t] < k <==> axes@.take(j as int).contains(t as usize)),
            forall|t: int| 0 <= t < n && slots@[t] < k ==> #[trigger] slots@[t] < j && axes@[slots@[t] as int] == t,
        decreases k - j,
    {
        let x = axes[j];
        if x >= n {
            return Err(KernelError::AxisOutOfRange);
        }
        if slots[x] < k {
            proof {
                let i = slots@[x as int] as int;
                assert(axes@[i] == x && i < j);
            }
            return Err(KernelError::DuplicateAxis);
        }
        proof {
            assert(axes@.take(j + 1) == axes@.take(j as int).push(x));
            assert(!axes@.take(j as int).contains(x));
        }
        slots.set(x, j);
        proof {
            assert forall|t: int| 0 <= t < n implies (#[trigger] slots@[t] < k <==> axes@.take(j + 1).contains(t as usize)) by {
                if t != x {
                    if axes@.take(j + 1).contains(t as usize) {
                        let i = choose|i: int| 0 <= i < j + 1 && #[trigger] axes@.take(j + 1)[i] == t as usize;
                        assert(axes@.take(j as int)[i] == t as usize);
                    }
                } else {
                    assert(axes@.take(j + 1)[j as int] == x);
                }
            }
        }
        j = j + 1;
    }
    proof {
        assert(axes@.take(k as int) == axes@);
    }
    Ok(slots)
}

/// Index of entry `l` of fiber `c`.
fn entry_index(
    n: usize,
    slots: &Vec<usize>,
    pw: &Vec<usize>,
    Ghost(axes): Ghost<Seq<usize>>,
    k: usize,
    c: usize,
    l: usize,
) -> (r: usize)
    requires
        k == axes.len(),
        valid_axes(axes, n as nat),
        pow2(n as nat) <= usize::MAX,
        pw.len() == n + 1,
        forall|i: int| 0 <= i <= n ==> #[trigger] pw@[i] == pow2(i as nat),
        slots.len() == n,
        forall|a: int| 0 <= a < n ==> (#[trigger] slots@[a] < axes.len() <==> axes.contains(a as usize)),
        forall|a: int| 0 <= a < n && slots@[a] < axes.len() ==> axes[#[trigger] slots@[a] as int] == a,
    ensures
        r == fiber_index(axes, n as nat, c as nat, l as nat),
{
    proof {
        lemma_axes_fit(axes, n as nat);
    }
    let ghost k0 = axes.len();
    let mut index: usize = 0;
    let mut weight: usize = 1;
    let mut rest: usize = c;
    let mut m: usize = n;
    proof {
        vstd::arithmetic::power2::lemma2_to64();
    }
    while m > 0
        invariant
            m <= n,
            k <= n,
            k == k0,
            k0 == axes.len(),
            valid_axes(axes, n as nat),
            pow2(n as nat) <= usize::MAX,
            pw.len() == n + 1,
            forall|i: int| 0 <= i <= n ==> #[trigger] pw@[i] == pow2(i as nat),
            slots.len() == n,
            forall|a: int| 0 <= a < n ==> (#[trigger] slots@[a] < axes.len() <==> axes.contains(a as usize)),
            forall|a: int| 0 <= a < n && slots@[a] < axes.len() ==> axes[#[trigger] slots@[a] as int] == a,
            weight == pow2((n - m) as nat),
            index < weight,
            fiber_index(axes, n as nat, c as nat, l as nat)
                == index + weight * prefix_index(axes, rest as nat, l as nat, m as nat),
        decreases m,
    {
        m = m - 1;
        let ghost p = prefix_index(axes, rest as nat, l as nat, m as nat);
        let ghost rest0 = rest;
        let b: usize;
        if slots[m] < k {
            proof {
                lemma_slot(axes, slots@[m as int] as int);
            }
            let s = k - 1 - slots[m];
            proof {
                lemma_pow2_pos(s as nat);
            }
            b = (l / pw[s]) % 2;
        } else {
            b = rest % 2;
            rest = rest / 2;
        }
        proof {
            assert(prefix_index(axes, rest0 as nat, l as nat, (m + 1) as nat)
                == 2 * prefix_index(axes, rest as nat, l as nat, m as nat) + b);
            lemma_pow2_unfold((n - m) as nat);
            if n - m < n {
                lemma_pow2_strictly_increases((n - m) as nat, n as nat);
            }
            let q = prefix_index(axes, rest as nat, l as nat, m as nat);
            assert(index + weight * (2 * q + b) == (index + weight * b) + (2 * weight) * q)
                by (nonlinear_arith);
            assert(index + weight * b < 2 * weight) by (nonlinear_arith)
                requires
                    index < weight,
                    b <= 1,
            ;
        }
        index = index + weight * b;
        weight = 2 * weight;
    }
    proof {
        assert(prefix_index(axes, rest as nat, l as nat, 0) == 0);
        assert(weight * prefix_index(axes, rest as nat, l as nat, 0) == 0) by (nonlinear_arith)
            requires
                prefix_index(axes, rest as nat, l as nat, 0) == 0,
        ;
    }
    index
}

/// Where the fibers of a matrix acting on some axes lie in a state: entry `l`
/// of fiber `c` is at `bases[c] + offsets[l]`.
pub struct FiberLayout {
    /// Index of the first entry of each fiber.
    pub bases: Vec<usize>,
    /// Offset of each local index from the first entry of its fiber.
    pub offsets: Vec<usize>,
}

/// Computes where the fibers of a matrix of dimension `block_dim` acting on
/// `axes` lie in a state over `num_axes` binary axes.
pub fn fiber_layout(num_axes: usize, axes: &[usize], block_dim: usize) -> (r: Result<FiberLayout, KernelError>)
    requires
        pow2(num_axes as nat) <= usize::MAX,
    ensures
        r is Ok <==> valid_axes(axes@, num_axes as nat) && block_dim == pow2(axes.len() as nat),
        r == Err::<FiberLayout, KernelError>(KernelError::DimensionMismatch)
            <==> valid_axes(axes@, num_axes as nat) && block_dim != pow2(axes.len() as nat),
        r == Err::<FiberLayout, KernelError>(KernelError::AxisOutOfRange)
            ==> exists|j: int| 0 <= j < axes.len() && axes@[j] >= num_axes,
        r == Err::<FiberLayout, KernelError>(KernelError::DuplicateAxis) ==> !axes@.no_duplicates(),
        r matches Ok(layout) ==> {
            &&& axes.len() <= num_axes
            &&& layout.bases.len() == pow2((num_axes - axes.len()) as nat)
            &&& layout.offsets.len() == pow2(axes.len() as nat)
            &&& forall|c: int| 0 <= c < layout.bases.len()
                ==> #[trigger] layout.bases@[c] == fiber_index(axes@, num_axes as nat, c as nat, 0)
            &&& forall|l: int| 0 <= l < layout.offsets.len()
                ==> #[trigger] layout.offsets@[l] == fiber_index(axes@, num_axes as nat, 0, l as nat)
        },
{
    let slots = match axis_slots(num_axes, axes) {
        Ok(slots) => slots,
        Err(e) => {
            return Err(e);
        },
    };
    proof {
        lemma_axes_fit(axes@, num_axes as nat);
    }
    let pw = powers_of_two(num_axes);
    let k = axes.len();
    if block_dim != pw[k] {
        return Err(KernelError::DimensionMismatch);
    }
    let outer = pw[num_axes - k];
    let mut bases: Vec<usize> = Vec::new();
    let mut c: usize = 0;
    while c < outer
        invariant
            c <= outer,
            k == axes.len(),
            k <= num_axes,
            outer == pow2((num_axes - k) as nat),
            valid_axes(axes@, num_axes as nat),
            pow2(num_axes as nat) <= usize::MAX,
            pw.len() == num_axes + 1,
            forall|i: int| 0 <= i <= num_axes ==> #[trigger] pw@[i] == pow2(i as nat),
            slots.len() == num_axes,
            forall|a: int| 0 <= a < num_axes ==> (#[trigger] slots@[a] < axes.len() <==> axes@.contains(a as usize)),
            forall|a: int| 0 <= a < num_axes && slots@[a] < axes.len() ==> axes@[#[trigger] slots@[a] as int] == a,
            bases.len() == c,
            forall|t: int| 0 <= t < c ==> #[trigger] bases@[t] == fiber_index(axes@, num_axes as nat, t as nat, 0),
        decreases outer - c,
    {
        let base = entry_index(num_axes, &slots, &pw, Ghost(axes@), k, c, 0);
        bases.push(base);
        c = c + 1;
    }
    let inner = pw[k];
    let mut offsets: Vec<usize> = Vec::new();
    let mut l: usize = 0;
    while l < inner
        invariant
            l <= inner,
            k == axes.len(),
            inner == pow2(k as nat),
            valid_axes(axes@, num_axes as nat),
            pow2(num_axes as nat) <= usize::MAX,
            pw.len() == num_axes + 1,
            forall|i: int| 0 <= i <= num_axes ==> #[trigger] pw@[i] == pow2(i as nat),
            slots.len() == num_axes,
            forall|a: int| 0 <= a < num_axes ==> (#[trigger] slots@[a] < axes.len() <==> axes@.contains(a as usize)),
            forall|a: int| 0 <= a < num_axes && slots@[a] < axes.len() ==> axes@[#[trigger] slots@[a] as int] == a,
            offsets.len() == l,
            forall|t: int| 0 <= t < l ==> #[trigger] offsets@[t] == fiber_index(axes@, num_axes as nat, 0, t as nat),
        decreases inner - l,
    {
        let offset = entry_index(num_axes, &slots, &pw, Ghost(axes@), k, 0, l);
        offsets.push(offset);
        l = l + 1;
    }
    Ok(FiberLayout { bases, offsets })
}

/// The entries of fiber `c` of `state`, in local order.
pub open spec fn fiber_entries<C>(state: Seq<C>, axes: Seq<usize>, n: nat, c: nat) -> Seq<C> {
    Seq::new(pow2(axes.len()), |l: int| state[fiber_index(axes, n, c, l as nat) as int])
}

/// `new` is `old` with every fiber along `axes` multiplied by `m`.
pub open spec fn kernel_applied<C: Amplitude>(
    old: Seq<C>,
    new: Seq<C>,
    n: nat,
    m: SquareMatrix<C>,
    axes: Seq<usize>,
) -> bool {
    &&& new.len() == old.len()
    &&& forall|c: nat, l: nat| c < pow2((n - axes.len()) as nat) && l < pow2(axes.len())
        ==> new[#[trigger] fiber_index(axes, n, c, l) as int]
            == row_times(m, l as int, fiber_entries(old, axes, n, c), m.size())
}

/// The state over `n` axes that results from multiplying every fiber of
/// `old` along `axes` by `m`.
pub open spec fn kernel_output<C: Amplitude>(old: Seq<C>, n: nat, m: SquareMatrix<C>, axes: Seq<usize>) -> Seq<C> {
    choose|new: Seq<C>| kernel_applied(old, new, n, m, axes)
}

/// Since the fibers cover the state, the relation `kernel_applied` has one
/// result: `kernel_output`.
pub proof fn lemma_kernel_output<C: Amplitude>(old: Seq<C>, new: Seq<C>, n: nat, m: SquareMatrix<C>, axes: Seq<usize>)
    requires
        valid_axes(axes, n),
        n <= usize::MAX,
        old.len() == pow2(n),
        kernel_applied(old, new, n, m, axes),
    ensures
        kernel_output(old, n, m, axes) == new,
{
    let out = kernel_output(old, n, m, axes);
    assert(kernel_applied(old, out, n, m, axes));
    assert forall|g: int| 0 <= g < new.len() implies out[g] == new[g] by {
        lemma_fibers_cover(axes, n, g as nat);
        let (c, l) = choose|c: nat, l: nat| c < pow2((n - axes.len()) as nat) && l < pow2(axes.len())
            && #[trigger] fiber_index(axes, n, c, l) == g as nat;
    }
    assert(out =~= new);
}

/// Multiplies `matrix` into every fiber of `state` along `axes`, in place.
/// `state` holds `2^num_axes` entries; the matrix must have dimension
/// `2^|axes|`, and the axes must be distinct and below `num_axes`. On an
/// error the state is left as it was.
pub fn apply_kernel<C: Amplitude>(
    state: &mut Vec<C>,
    num_axes: usize,
    matrix: &SquareMatrix<C>,
    axes: &[usize],
) -> (r: Result<(), KernelError>)
    requires
        old(state).len() == pow2(num_axes as nat),
        matrix.wf(),
    ensures
        final(state).len() == old(state).len(),
        r is Ok <==> valid_axes(axes@, num_axes as nat) && matrix.size() == pow2(axes.len() as nat),
        r == Err::<(), KernelError>(KernelError::DimensionMismatch)
            <==> valid_axes(axes@, num_axes as nat) && matrix.size() != pow2(axes.len() as nat),
        r == Err::<(), KernelError>(KernelError::AxisOutOfRange)
            ==> exists|j: int| 0 <= j < axes.len() && axes@[j] >= num_axes,
        r == Err::<(), KernelError>(KernelError::DuplicateAxis) ==> !axes@.no_duplicates(),
        r is Err ==> *final(state) == *old(state),
        r is Ok ==> kernel_applied(old(state)@, final(state)@, num_axes as nat, *matrix, axes@),
        r is Ok ==> final(state)@ == kernel_output(old(state)@, num_axes as nat, *matrix, axes@),
{
    let len = state.len();
    let layout = match fiber_layout(num_axes, axes, matrix.dim()) {
        Ok(layout) => layout,
        Err(e) => {
            return Err(e);
        },
    };
    let d = layout.offsets.len();
    let outer = layout.bases.len();
    let ghost n = num_axes as nat;
    let ghost initial = state@;
    let ghost ax = axes@;
    let mut c: usize = 0;
    while c < outer
        invariant
            c <= outer,
            outer == layout.bases.len(),
            outer == pow2((n - ax.len()) as nat),
            d == layout.offsets.len(),
            d == pow2(ax.len()),
            d == matrix.size(),
            matrix.wf(),
            ax == axes@,
            valid_axes(ax, n),
            state.len() == len,
            len == pow2(n),
            initial.len() == len,
            n == num_axes,
            forall|t: int| 0 <= t < layout.bases.len()
                ==> #[trigger] layout.bases@[t] == fiber_index(ax, n, t as nat, 0),
            forall|t: int| 0 <= t < layout.offsets.len()
                ==> #[trigger] layout.offsets@[t] == fiber_index(ax, n, 0, t as nat),
            forall|c2: nat, l2: nat| c2 < outer && l2 < d ==> state@[#[trigger] fiber_index(ax, n, c2, l2) as int]
                == if c2 < c { row_times(*matrix, l2 as int, fiber_entries(initial, ax, n, c2), d as nat) }
                   else { initial[fiber_index(ax, n, c2, l2) as int] },
        decreases outer - c,
    {
        let base = layout.bases[c];
        let mut fiber: Vec<C> = Vec::new();
        let mut l: usize = 0;
        while l < d
            invariant
                l <= d,
                c < outer,
                outer == layout.bases.len(),
                outer == pow2((n - ax.len()) as nat),
                d == layout.offsets.len(),
                d == pow2(ax.len()),
                base == layout.bases@[c as int],
                state.len() == len,
                len == pow2(n),
                fiber.len() == l,
                forall|t: int| 0 <= t < layout.bases.len()
                    ==> #[trigger] layout.bases@[t] == fiber_index(ax, n, t as nat, 0),
                forall|t: int| 0 <= t < layout.offsets.len()
                    ==> #[trigger] layout.offsets@[t] == fiber_index(ax, n, 0, t as nat),
                forall|c2: nat, l2: nat| c2 < outer && l2 < d ==> state@[#[trigger] fiber_index(ax, n, c2, l2) as int]
                    == if c2 < c { row_times(*matrix, l2 as int, fiber_entries(initial, ax, n, c2), d as nat) }
                       else { initial[fiber_index(ax, n, c2, l2) as int] },
                forall|t: int| 0 <= t < l ==> #[trigger] fiber@[t] == initial[fiber_index(ax, n, c as nat, t as nat) as int],
            decreases d - l,
        {
            proof {
                lemma_fiber_split(ax, c as nat, l as nat, n);
                lemma_prefix_index_bound(ax, c as nat, l as nat, n);
                assert(state@[fiber_index(ax, n, c as nat, l as nat) as int] == initial[fiber_index(ax, n, c as nat, l as nat) as int]);
            }
            fiber.push(state[base + layout.offsets[l]]);
            l = l + 1;
        }
        proof {
            assert(fiber@ =~= fiber_entries(initial, ax, n, c as nat));
        }
        let out = matrix.apply(&fiber);
        let ghost before = state@;
        let mut l: usize = 0;
        while l < d
            invariant
                l <= d,
                c < outer,
                outer == layout.bases.len(),
                outer == pow2((n - ax.len()) as nat),
                d == layout.offsets.len(),
                d == pow2(ax.len()),
                d == matrix.size(),
                ax == axes@,
                valid_axes(ax, n),
                n <= usize::MAX,
                base == layout.bases@[c as int],
                state.len() == len,
                before.len() == len,
                len == pow2(n),
                out.len() == d,
                forall|t: int| 0 <= t < layout.bases.len()
                    ==> #[trigger] layout.bases@[t] == fiber_index(ax, n, t as nat, 0),
                forall|t: int| 0 <= t < layout.offsets.len()
                    ==> #[trigger] layout.offsets@[t] == fiber_index(ax, n, 0, t as nat),
                forall|c2: nat, l2: nat| c2 < outer && l2 < d ==> state@[#[trigger] fiber_index(ax, n, c2, l2) as int]
                    == if c2 == c && l2 < l { out@[l2 as int] } else { before[fiber_index(ax, n, c2, l2) as int] },
            decreases d - l,
        {
            proof {
                lemma_fiber_split(ax, c as nat, l as nat, n);
                lemma_prefix_index_bound(ax, c as nat, l as nat, n);
            }
            let ghost prev = state@;
            let ghost at = fiber_index(ax, n, c as nat, l as nat);
            assert(base + layout.offsets@[l as int] == at);
            state.set(base + layout.offsets[l], out[l]);
            proof {
                assert(state@ == prev.update(at as int, out@[l as int]));
                assert forall|c2: nat, l2: nat| c2 < outer && l2 < d implies state@[#[trigger] fiber_index(ax, n, c2, l2) as int]
                    == if c2 == c && l2 < l + 1 { out@[l2 as int] } else { before[fiber_index(ax, n, c2, l2) as int] } by {
                    lemma_prefix_index_bound(ax, c2, l2, n);
                    if c2 != c || l2 != l {
                        lemma_fibers_disjoint(ax, n, c2, l2, c as nat, l as nat);
                        assert(fiber_index(ax, n, c2, l2) != at);
                        assert(prev[fiber_index(ax, n, c2, l2) as int] == if c2 == c && l2 < l { out@[l2 as int] }
                            else { before[fiber_index(ax, n, c2, l2) as int] });
                    }
                }
            }
            l = l + 1;
        }
        proof {
            assert forall|c2: nat, l2: nat| c2 < outer && l2 < d implies state@[#[trigger] fiber_index(ax, n, c2, l2) as int]
                == if c2 < c + 1 { row_times(*matrix, l2 as int, fiber_entries(initial, ax, n, c2), d as nat) }
                   else { initial[fiber_index(ax, n, c2, l2) as int] } by {
                assert(before[fiber_index(ax, n, c2, l2) as int] == if c2 < c {
                    row_times(*matrix, l2 as int, fiber_entries(initial, ax, n, c2), d as nat) }
                   else { initial[fiber_index(ax, n, c2, l2) as int] });
                if c2 == c {
                    assert(out@[l2 as int] == row_times(*matrix, l2 as int, fiber@, d as nat));
                }
            }
        }
        c = c + 1;
    }
    proof {
        assert(kernel_applied(initial, state@, n, *matrix, ax));
        lemma_kernel_output(initial, state@, n, *matrix, ax);
    }
    Ok(())
}

} // verus!
