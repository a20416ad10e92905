//! The arithmetic of instance generation: how item types are spread over
//! clusters, how changeover costs follow from positions on a line, and how a
//! seed number becomes seed bytes. What is drawn at random is drawn
//! elsewhere and handed in.

use vstd::prelude::*;

verus! {

/// The size of cluster `c` when `nb_types` item types are spread over
/// `nb_clusters` clusters as evenly as can be, the first clusters taking
/// what is left over.
pub open spec fn cluster_size(nb_types: usize, nb_clusters: usize, c: int) -> int {
    nb_types as int / nb_clusters as int + if c < nb_types as int % nb_clusters as int {
        1int
    } else {
        0int
    }
}

/// The sum of the first `c` entries of `sizes`.
pub open spec fn sum_below(sizes: Seq<usize>, c: int) -> int
    decreases c,
{
    if c <= 0 {
        0
    } else {
        sum_below(sizes, c - 1) + sizes[c - 1]
    }
}

/// The distance between two positions.
pub open spec fn distance(x: usize, y: usize) -> usize {
    if x <= y {
        (y - x) as usize
    } else {
        (x - y) as usize
    }
}

/// Byte `k` of `init` written with its highest byte first, for `k` below
/// 16.
pub open spec fn high_first_byte(init: u128, k: int) -> int {
    (init as int / pow256(15 - k)) % 256
}

/// The power of 256 with exponent `e`.
pub open spec fn pow256(e: int) -> int
    decreases e,
{
    if e <= 0 {
        1
    } else {
        256 * pow256(e - 1)
    }
}

/// The powers of 256 up to the fifteenth fit a `u128`.
proof fn lemma_pow256_bound(e: int)
    requires
        0 <= e <= 15,
    ensures
        1 <= pow256(e) <= 0x1_0000_0000_0000_0000_0000_0000_0000_00,
    decreases e,
{
    reveal_with_fuel(pow256, 17);
}

/// The sizes of the clusters: each gets the quotient of the item types by
/// the clusters, and the first ones one more until the remainder is spent.
/// Together they hold every item type.
pub fn cluster_sizes(nb_types: usize, nb_clusters: usize) -> (sizes: Vec<usize>)
    requires
        nb_clusters >= 1,
    ensures
        sizes@.len() == nb_clusters,
        forall|c: int|
            0 <= c < nb_clusters ==> #[trigger] sizes@[c] == cluster_size(nb_types, nb_clusters, c),
        sum_below(sizes@, nb_clusters as int) == nb_types,
{
    let share: usize = nb_types / nb_clusters;
    let left: usize = nb_types % nb_clusters;
    let mut sizes: Vec<usize> = Vec::new();
    let mut c: usize = 0;
    while c < nb_clusters
        invariant
            nb_clusters >= 1,
            share == nb_types / nb_clusters,
            left == nb_types % nb_clusters,
            c <= nb_clusters,
            sizes@.len() == c,
            forall|b: int|
                0 <= b < c ==> #[trigger] sizes@[b] == cluster_size(nb_types, nb_clusters, b),
            sum_below(sizes@, c as int) == c * share + if c < left {
                c as int
            } else {
                left as int
            },
        decreases nb_clusters - c,
    {
        let ghost before = sizes@;
        proof {
            assert(nb_types == nb_clusters * share + left) by (nonlinear_arith)
                requires
                    nb_clusters >= 1,
                    share == nb_types / nb_clusters,
                    left == nb_types % nb_clusters,
            ;
            assert(share * 1 <= share * nb_clusters) by (nonlinear_arith)
                requires
                    nb_clusters >= 1,
                    share >= 0,
            ;
            assert((c + 1) * share == c * share + share) by (nonlinear_arith);
        }
        let size: usize = if c < left {
            share + 1
        } else {
            share
        };
        sizes.push(size);
        proof {
            lemma_sum_below_prefix(before, sizes@, c as int);
        }
        c += 1;
    }
    proof {
        assert(nb_types == nb_clusters * share + left) by (nonlinear_arith)
            requires
                nb_clusters >= 1,
                share == nb_types / nb_clusters,
                left == nb_types % nb_clusters,
        ;
    }
    sizes
}

/// The sum of a prefix does not depend on what follows it.
pub proof fn lemma_sum_below_prefix(short: Seq<usize>, long: Seq<usize>, c: int)
    requires
        0 <= c <= short.len() <= long.len(),
        forall|b: int| 0 <= b < short.len() ==> short[b] == long[b],
    ensures
        sum_below(short, c) == sum_below(long, c),
    decreases c,
{
    if c > 0 {
        lemma_sum_below_prefix(short, long, c - 1);
    }
}

/// The sums of prefixes grow with the prefix.
pub proof fn lemma_sum_below_monotone(sizes: Seq<usize>, b: int, c: int)
    requires
        0 <= b <= c <= sizes.len(),
    ensures
        sum_below(sizes, b) <= sum_below(sizes, c),
    decreases c - b,
{
    if b < c {
        lemma_sum_below_monotone(sizes, b, c - 1);
    }
}

/// The item types of each cluster: the types are numbered from zero, and
/// each cluster takes as many as its size says, in turn.
pub fn cluster_members(sizes: &Vec<usize>) -> (members: Vec<Vec<usize>>)
    requires
        sum_below(sizes@, sizes@.len() as int) <= usize::MAX,
    ensures
        members@.len() == sizes@.len(),
        forall|c: int| 0 <= c < sizes@.len() ==> (#[trigger] members@[c])@.len() == sizes@[c],
        forall|c: int, j: int|
            0 <= c < sizes@.len() && 0 <= j < sizes@[c] ==> #[trigger] members@[c]@[j] == sum_below(
                sizes@,
                c,
            ) + j,
{
    let mut members: Vec<Vec<usize>> = Vec::new();
    let mut next: usize = 0;
    let mut c: usize = 0;
    while c < sizes.len()
        invariant
            sum_below(sizes@, sizes@.len() as int) <= usize::MAX,
            c <= sizes@.len(),
            next == sum_below(sizes@, c as int),
            members@.len() == c,
            forall|b: int| 0 <= b < c ==> (#[trigger] members@[b])@.len() == sizes@[b],
            forall|b: int, j: int|
                0 <= b < c && 0 <= j < sizes@[b] ==> #[trigger] members@[b]@[j] == sum_below(
                    sizes@,
                    b,
                ) + j,
        decreases sizes@.len() - c,
    {
        proof {
            lemma_sum_below_monotone(sizes@, c + 1, sizes@.len() as int);
        }
        let first = next;
        let mut ids: Vec<usize> = Vec::new();
        let mut j: usize = 0;
        while j < sizes[c]
            invariant
                c < sizes@.len(),
                first + sizes@[c as int] <= usize::MAX,
                j <= sizes@[c as int],
                next == first + j,
                ids@.len() == j,
                forall|i: int| 0 <= i < j ==> #[trigger] ids@[i] == first + i,
            decreases sizes@[c as int] - j,
        {
            ids.push(next);
            next += 1;
            j += 1;
        }
        members.push(ids);
        c += 1;
    }
    members
}

/// Writes the changeover costs between the item types of two clusters: from
/// each type of the first to each type of the second, the distance between
/// their positions. The other entries stay as they are.
pub fn changeover_block(
    costs: &mut Vec<Vec<usize>>,
    from: &Vec<usize>,
    from_positions: &Vec<usize>,
    to: &Vec<usize>,
    to_positions: &Vec<usize>,
)
    requires
        from@.len() == from_positions@.len(),
        to@.len() == to_positions@.len(),
        forall|i: int| 0 <= i < from@.len() ==> #[trigger] from@[i] < old(costs)@.len(),
        forall|r: int, j: int|
            0 <= r < old(costs)@.len() && 0 <= j < to@.len() ==> #[trigger] to@[j] < (
            #[trigger] old(costs)@[r])@.len(),
    ensures
        final(costs)@.len() == old(costs)@.len(),
        forall|r: int| 0 <= r < old(costs)@.len() ==> (#[trigger] final(costs)@[r])@.len() == old(
            costs,
        )@[r]@.len(),
        forall|i: int, j: int|
            0 <= i < from@.len() && 0 <= j < to@.len() ==> final(costs)@[#[trigger] from@[i] as int]@[
                #[trigger] to@[j] as int] == distance(from_positions@[i], to_positions@[j])
                || exists|i2: int, j2: int|
                (i < i2 < from@.len() || (i2 == i && j < j2)) && 0 <= i2 < from@.len() && 0 <= j2
                    < to@.len() && from@[i2] == from@[i] && to@[j2] == to@[j],
        forall|r: int, c: int|
            0 <= r < old(costs)@.len() && 0 <= c < old(costs)@[r]@.len() && !(exists|i: int, j: int|
                0 <= i < from@.len() && 0 <= j < to@.len() && from@[i] == r && to@[j] == c)
                ==> final(costs)@[r]@[c] == old(costs)@[r]@[c],
{
    let mut i: usize = 0;
    while i < from.len()
        invariant
            from@.len() == from_positions@.len(),
            to@.len() == to_positions@.len(),
            i <= from@.len(),
            costs@.len() == old(costs)@.len(),
            forall|r: int| 0 <= r < costs@.len() ==> (#[trigger] costs@[r])@.len() == old(costs)@[r]@.len(),
            forall|c: int| 0 <= c < from@.len() ==> #[trigger] from@[c] < costs@.len(),
            forall|r: int, j: int|
                0 <= r < costs@.len() && 0 <= j < to@.len() ==> #[trigger] to@[j] < (
                #[trigger] costs@[r])@.len(),
            forall|a: int, b: int|
                0 <= a < i && 0 <= b < to@.len() ==> costs@[#[trigger] from@[a] as int]@[
                    #[trigger] to@[b] as int] == distance(from_positions@[a], to_positions@[b])
                    || exists|a2: int, b2: int|
                    (a < a2 < i || (a2 == a && b < b2)) && 0 <= a2 < i && 0 <= b2 < to@.len()
                        && from@[a2] == from@[a] && to@[b2] == to@[b],
            forall|r: int, c: int|
                0 <= r < costs@.len() && 0 <= c < costs@[r]@.len() && !(exists|a: int, b: int|
                    0 <= a < i && 0 <= b < to@.len() && from@[a] == r && to@[b] == c)
                    ==> costs@[r]@[c] == old(costs)@[r]@[c],
        decreases from@.len() - i,
    {
        let row = from[i];
        let ghost outer = costs@;
        let mut j: usize = 0;
        while j < to.len()
            invariant
                from@.len() == from_positions@.len(),
                to@.len() == to_positions@.len(),
                i < from@.len(),
                row == from@[i as int],
                j <= to@.len(),
                costs@.len() == outer.len(),
                row < costs@.len(),
                forall|r: int| 0 <= r < costs@.len() ==> (#[trigger] costs@[r])@.len() == outer[r]@.len(),
                forall|r: int, b: int|
                    0 <= r < costs@.len() && 0 <= b < to@.len() ==> #[trigger] to@[b] < (
                    #[trigger] costs@[r])@.len(),
                forall|r: int| 0 <= r < costs@.len() && r != row ==> #[trigger] costs@[r] == outer[r],
                forall|b: int|
                    0 <= b < j ==> costs@[row as int]@[#[trigger] to@[b] as int] == distance(
                        from_positions@[i as int],
                        to_positions@[b],
                    ) || exists|b2: int| b < b2 < j && to@[b2] == to@[b],
                forall|c: int|
                    0 <= c < costs@[row as int]@.len() && !(exists|b: int|
                        0 <= b < j && to@[b] == c) ==> costs@[row as int]@[c] == outer[row as int]@[c],
            decreases to@.len() - j,
        {
            let column = to[j];
            let x = from_positions[i];
            let y = to_positions[j];
            let ghost inner = costs@;
            costs[row][column] = if x <= y {
                y - x
            } else {
                x - y
            };
            proof {
                assert forall|b: int| 0 <= b < j + 1 implies costs@[row as int]@[
                    #[trigger] to@[b] as int] == distance(
                    from_positions@[i as int],
                    to_positions@[b],
                ) || exists|b2: int| b < b2 < j + 1 && to@[b2] == to@[b] by {
                    if b < j {
                        if to@[b] == column {
                            assert(b < j < j + 1 && to@[j as int] == to@[b]);
                        } else if exists|b2: int| b < b2 < j && to@[b2] == to@[b] {
                            let b2 = choose|b2: int| b < b2 < j && to@[b2] == to@[b];
                            assert(b < b2 < j + 1 && to@[b2] == to@[b]);
                        } else {
                            assert(inner[row as int]@[to@[b] as int] == distance(
                                from_positions@[i as int],
                                to_positions@[b],
                            ));
                        }
                    }
                }
                assert forall|c: int|
                    0 <= c < costs@[row as int]@.len() && !(exists|b: int|
                        0 <= b < j + 1 && to@[b] == c) implies costs@[row as int]@[c]
                    == outer[row as int]@[c] by {
                    assert(!(0 <= j < j + 1 && to@[j as int] == c));
                    assert(!(exists|b: int| 0 <= b < j && to@[b] == c)) by {
                        if exists|b: int| 0 <= b < j && to@[b] == c {
                            let b = choose|b: int| 0 <= b < j && to@[b] == c;
                            assert(0 <= b < j + 1 && to@[b] == c);
                        }
                    }
                }
            }
            j += 1;
        }
        proof {
            assert forall|a: int, b: int| 0 <= a < i + 1 && 0 <= b < to@.len() implies costs@[
                #[trigger] from@[a] as int]@[#[trigger] to@[b] as int] == distance(
                from_positions@[a],
                to_positions@[b],
            ) || exists|a2: int, b2: int|
                (a < a2 < i + 1 || (a2 == a && b < b2)) && 0 <= a2 < i + 1 && 0 <= b2 < to@.len()
                    && from@[a2] == from@[a] && to@[b2] == to@[b] by {
                if a == i {
                    if exists|b2: int| b < b2 < to@.len() && to@[b2] == to@[b] {
                        let b2 = choose|b2: int| b < b2 < to@.len() && to@[b2] == to@[b];
                        assert((a < a < i + 1 || (a == a && b < b2)) && 0 <= a < i + 1 && 0 <= b2
                            < to@.len() && from@[a] == from@[a] && to@[b2] == to@[b]);
                    }
                } else if from@[a] == row {
                    assert((a < i < i + 1 || (i == a && b < b)) && 0 <= i < i + 1 && 0 <= b
                        < to@.len() && from@[i as int] == from@[a] && to@[b] == to@[b]);
                } else {
                    assert(costs@[from@[a] as int] == outer[from@[a] as int]);
                    if exists|a2: int, b2: int|
                        (a < a2 < i || (a2 == a && b < b2)) && 0 <= a2 < i && 0 <= b2 < to@.len()
                            && from@[a2] == from@[a] && to@[b2] == to@[b] {
                        let (a2, b2) = choose|a2: int, b2: int|
                            (a < a2 < i || (a2 == a && b < b2)) && 0 <= a2 < i && 0 <= b2
                                < to@.len() && from@[a2] == from@[a] && to@[b2] == to@[b];
                        assert((a < a2 < i + 1 || (a2 == a && b < b2)) && 0 <= a2 < i + 1 && 0
                            <= b2 < to@.len() && from@[a2] == from@[a] && to@[b2] == to@[b]);
                    }
                }
            }
            assert forall|r: int, c: int|
                0 <= r < costs@.len() && 0 <= c < costs@[r]@.len() && !(exists|a: int, b: int|
                    0 <= a < i + 1 && 0 <= b < to@.len() && from@[a] == r && to@[b] == c) implies costs@[r]@[c]
                == old(costs)@[r]@[c] by {
                assert(!(exists|a: int, b: int|
                    0 <= a < i && 0 <= b < to@.len() && from@[a] == r && to@[b] == c)) by {
                    if exists|a: int, b: int|
                        0 <= a < i && 0 <= b < to@.len() && from@[a] == r && to@[b] == c {
                        let (a, b) = choose|a: int, b: int|
                            0 <= a < i && 0 <= b < to@.len() && from@[a] == r && to@[b] == c;
                        assert(0 <= a < i + 1 && 0 <= b < to@.len() && from@[a] == r && to@[b] == c);
                    }
                }
                assert(outer[r]@[c] == old(costs)@[r]@[c]);
                if r == row {
                    assert(!(exists|b: int| 0 <= b < to@.len() && to@[b] == c)) by {
                        if exists|b: int| 0 <= b < to@.len() && to@[b] == c {
                            let b = choose|b: int| 0 <= b < to@.len() && to@[b] == c;
                            assert(0 <= i < i + 1 && 0 <= b < to@.len() && from@[i as int] == r
                                && to@[b] == c);
                        }
                    }
                }
            }
        }
        i += 1;
    }
}

/// The bounds between which stocking costs are drawn, moved up where the
/// lower one is below the spread of a cluster: the lower bound becomes the
/// spread, and the upper bound moves as far.
pub fn widen_stocking_range(min_stocking: usize, max_stocking: usize, std_dev: usize) -> (range: (
    usize,
    usize,
))
    requires
        min_stocking < std_dev ==> max_stocking + (std_dev - min_stocking) <= usize::MAX,
    ensures
        range == if min_stocking < std_dev {
            (std_dev, (max_stocking + (std_dev - min_stocking)) as usize)
        } else {
            (min_stocking, max_stocking)
        },
{
    if min_stocking < std_dev {
        (std_dev, max_stocking + (std_dev - min_stocking))
    } else {
        (min_stocking, max_stocking)
    }
}

/// The 32 seed bytes of a seed number: its 16 bytes, highest first, twice
/// over.
pub fn seed_bytes(init: u128) -> (seed: Vec<u8>)
    ensures
        seed@.len() == 32,
        forall|k: int| 0 <= k < 16 ==> #[trigger] seed@[k] == high_first_byte(init, k),
        forall|k: int| 0 <= k < 16 ==> #[trigger] seed@[16 + k] == high_first_byte(init, k),
{
    let mut low_first: Vec<u8> = Vec::new();
    let mut rest: u128 = init;
    let mut k: usize = 0;
    while k < 16
        invariant
            k <= 16,
            low_first@.len() == k,
            rest == init as int / pow256(k as int),
            forall|j: int| 0 <= j < k ==> #[trigger] low_first@[j] == (init as int / pow256(j)) % 256,
        decreases 16 - k,
    {
        proof {
            lemma_pow256_bound(k as int);
            vstd::arithmetic::div_mod::lemma_div_denominator(init as int, pow256(k as int), 256);
            assert(pow256(k + 1) == pow256(k as int) * 256);
        }
        low_first.push((rest % 256) as u8);
        rest = rest / 256;
        k += 1;
    }
    let mut seed: Vec<u8> = Vec::new();
    let mut half: usize = 0;
    while half < 2
        invariant
            half <= 2,
            low_first@.len() == 16,
            forall|j: int| 0 <= j < 16 ==> #[trigger] low_first@[j] == (init as int / pow256(j)) % 256,
            seed@.len() == 16 * half,
            forall|j: int, h: int|
                0 <= j < 16 && 0 <= h < half ==> #[trigger] seed@[16 * h + j] == high_first_byte(
                    init,
                    j,
                ),
        decreases 2 - half,
    {
        let mut k: usize = 0;
        while k < 16
            invariant
                k <= 16,
                half < 2,
                low_first@.len() == 16,
                forall|j: int|
                    0 <= j < 16 ==> #[trigger] low_first@[j] == (init as int / pow256(j)) % 256,
                seed@.len() == 16 * half + k,
                forall|j: int, h: int|
                    0 <= j < 16 && 0 <= h < half ==> #[trigger] seed@[16 * h + j]
                        == high_first_byte(init, j),
                forall|j: int| 0 <= j < k ==> #[trigger] seed@[16 * half + j] == high_first_byte(init, j),
            decreases 16 - k,
        {
            seed.push(low_first[15 - k]);
            k += 1;
        }
        half += 1;
    }
    assert forall|k: int| 0 <= k < 16 implies #[trigger] seed@[k] == high_first_byte(init, k) by {
        assert(seed@[16 * 0 + k] == high_first_byte(init, k));
    }
    assert forall|k: int| 0 <= k < 16 implies #[trigger] seed@[16 + k] == high_first_byte(init, k) by {
        assert(seed@[16 * 1 + k] == high_first_byte(init, k));
    }
    seed
}

} // verus!
