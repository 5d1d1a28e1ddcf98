use vstd::prelude::*;

use bit_set::BitSet;

use crate::bits::{empty_set, set_insert, set_items, set_len, set_members};
use crate::direction::Direction;
use crate::engine::TileEnablerCount;
use crate::image_reader::{is_window, Image};
use crate::log2::{plogp, plogp_fixed};
use crate::sample::{agrees_at, compatible_spec, is_rotation_of, lemma_compatible_symmetric, Sample, SampleID};

verus! {

/// The constraint model extracted from an exemplar: the distinct patterns,
/// how often each occurred, and which patterns may sit next to which.
pub struct Model {
    /// The distinct patterns; a pattern's position here is its tile index.
    pub samples: Vec<Sample>,
    /// For tile `i`: `(i, (count, count·log2(count)))`, the log in units of 2^-16.
    pub freq_map: Vec<(SampleID, (u32, u64))>,
    /// `adjacency_rule[i][d]`: the tiles that may sit next to tile `i` in the
    /// direction with stable index `d`.
    pub adjacency_rule: Vec<[BitSet; 4]>,
}

/// How many entries of `s` equal `p`.
pub open spec fn occurrences(s: Seq<Sample>, p: Sample) -> nat
    decreases s.len(),
{
    if s.len() == 0 {
        0
    } else {
        occurrences(s.drop_last(), p) + if s.last().same_as(&p) {
            1nat
        } else {
            0nat
        }
    }
}

/// Sum of the counts of the first `k` tiles.
pub open spec fn count_sum(f: Seq<(SampleID, (u32, u64))>, k: int) -> int
    decreases k,
{
    if k <= 0 {
        0
    } else {
        count_sum(f, k - 1) + f[k - 1].1.0
    }
}

/// The set of tiles below `k` that may sit next to `a` in direction `d`.
pub open spec fn compatible_tiles(samples: Seq<Sample>, a: Sample, d: Direction, k: int) -> Set<
    usize,
> {
    Set::new(|j: usize| j < k && compatible_spec(a, samples[j as int], d))
}

/// Pattern equality is symmetric and transitive.
pub proof fn lemma_same_as(a: Sample, b: Sample, c: Sample)
    ensures
        a.same_as(&a),
        a.same_as(&b) ==> b.same_as(&a),
        a.same_as(&b) && b.same_as(&c) ==> a.same_as(&c),
{
    if a.same_as(&b) && b.same_as(&c) {
        assert forall|i: int| 0 <= i < a.region.data@.len() implies #[trigger] a.region.data@[i]@
            == c.region.data@[i]@ by {
            assert(a.region.data@[i]@ == b.region.data@[i]@);
            assert(b.region.data@[i]@ == c.region.data@[i]@);
        }
    }
    if a.same_as(&b) {
        assert forall|i: int| 0 <= i < b.region.data@.len() implies #[trigger] b.region.data@[i]@
            == a.region.data@[i]@ by {
            assert(a.region.data@[i]@ == b.region.data@[i]@);
        }
    }
}

proof fn lemma_occurrences_push(s: Seq<Sample>, x: Sample, p: Sample)
    ensures
        occurrences(s.push(x), p) == occurrences(s, p) + if x.same_as(&p) {
            1nat
        } else {
            0nat
        },
{
    assert(s.push(x).drop_last() =~= s);
}

/// Equal patterns occur equally often.
proof fn lemma_occurrences_congruent(s: Seq<Sample>, p: Sample, q: Sample)
    requires
        p.same_as(&q),
    ensures
        occurrences(s, p) == occurrences(s, q),
    decreases s.len(),
{
    if s.len() > 0 {
        lemma_occurrences_congruent(s.drop_last(), p, q);
        lemma_same_as(s.last(), p, q);
        lemma_same_as(s.last(), q, p);
        lemma_same_as(p, q, p);
    }
}

proof fn lemma_occurrences_bound(s: Seq<Sample>, p: Sample)
    ensures
        occurrences(s, p) <= s.len(),
    decreases s.len(),
{
    if s.len() > 0 {
        lemma_occurrences_bound(s.drop_last(), p);
    }
}

/// A pattern that occurs has an index where it occurs.
pub proof fn lemma_occurrences_witness(s: Seq<Sample>, p: Sample) -> (k: int)
    requires
        occurrences(s, p) > 0,
    ensures
        0 <= k < s.len(),
        s[k].same_as(&p),
    decreases s.len(),
{
    if s.last().same_as(&p) {
        s.len() - 1
    } else {
        let k = lemma_occurrences_witness(s.drop_last(), p);
        k
    }
}

proof fn lemma_count_sum_update(f: Seq<(SampleID, (u32, u64))>, g: Seq<(SampleID, (u32, u64))>, j: int, k: int)
    requires
        0 <= j < k <= f.len(),
        f.len() == g.len(),
        forall|i: int| 0 <= i < f.len() && i != j ==> f[i].1.0 == g[i].1.0,
    ensures
        count_sum(g, k) == count_sum(f, k) - f[j].1.0 + g[j].1.0,
    decreases k,
{
    if k - 1 > j {
        lemma_count_sum_update(f, g, j, k - 1);
    } else {
        lemma_count_sum_same(f, g, j);
    }
}

proof fn lemma_count_sum_same(f: Seq<(SampleID, (u32, u64))>, g: Seq<(SampleID, (u32, u64))>, k: int)
    requires
        0 <= k <= f.len(),
        k <= g.len(),
        forall|i: int| 0 <= i < k ==> f[i].1.0 == g[i].1.0,
    ensures
        count_sum(g, k) == count_sum(f, k),
    decreases k,
{
    if k > 0 {
        lemma_count_sum_same(f, g, k - 1);
    }
}

/// Each count is at most the sum of all counts.
pub proof fn lemma_count_le_sum(f: Seq<(SampleID, (u32, u64))>, j: int, k: int)
    requires
        0 <= j < k <= f.len(),
    ensures
        f[j].1.0 <= count_sum(f, k),
        count_sum(f, j) + f[j].1.0 <= count_sum(f, k),
    decreases k,
{
    lemma_count_sum_nonneg(f, j);
    if k - 1 > j {
        lemma_count_le_sum(f, j, k - 1);
    }
}

pub proof fn lemma_count_sum_nonneg(f: Seq<(SampleID, (u32, u64))>, k: int)
    requires
        k <= f.len(),
    ensures
        count_sum(f, k) >= 0,
    decreases k,
{
    if k > 0 {
        lemma_count_sum_nonneg(f, k - 1);
    }
}

/// The tiles below `samples.len()` that may sit next to `samples[a]` in
/// direction `d`.
fn compatible_set(samples: &Vec<Sample>, a: usize, d: Direction) -> (r: BitSet)
    requires
        a < samples@.len(),
        forall|i: int| 0 <= i < samples@.len() ==> (#[trigger] samples@[i]).wf(),
    ensures
        set_items(r) == compatible_tiles(samples@, samples@[a as int], d, samples@.len() as int),
{
    let n = samples.len();
    let mut set = empty_set(n);
    let mut j: usize = 0;
    while j < n
        invariant
            n == samples@.len(),
            a < n,
            forall|i: int| 0 <= i < samples@.len() ==> (#[trigger] samples@[i]).wf(),
            j <= n,
            set_items(set) == compatible_tiles(samples@, samples@[a as int], d, j as int),
        decreases n - j,
    {
        if samples[a].compatible(&samples[j], d) {
            set_insert(&mut set, j);
        }
        assert(set_items(set) =~= compatible_tiles(samples@, samples@[a as int], d, j + 1));
        j = j + 1;
    }
    set
}

/// Equal patterns have the same pixels.
pub proof fn lemma_same_as_px(a: Sample, b: Sample)
    requires
        a.wf(),
        a.same_as(&b),
    ensures
        b.wf(),
        a.width() == b.width(),
        a.height() == b.height(),
        forall|x: int, y: int|
            0 <= x < a.width() && 0 <= y < a.height() ==> #[trigger] b.px(x, y) == a.px(x, y),
{
    assert forall|x: int, y: int| 0 <= x < a.width() && 0 <= y < a.height() implies #[trigger] b.px(
        x,
        y,
    ) == a.px(x, y) by {
        crate::grid2d::lemma_row_major(a.width(), a.height(), x, y);
        assert(a.region.data@[y * a.width() + x]@ == b.region.data@[y * a.width() + x]@);
    }
}

/// Adjacency is symmetric: `j` may sit next to `i` in direction `d` exactly
/// when `i` may sit next to `j` in the opposite direction.
pub proof fn lemma_adjacency_symmetric(m: Model, i: int, j: int, d: Direction)
    requires
        m.wf(),
        0 <= i < m.tiles(),
        0 <= j < m.tiles(),
    ensures
        m.adj(i, d.index()).contains(j as usize) <==> m.adj(j, d.flip().index()).contains(
            i as usize,
        ),
{
    crate::direction::lemma_opposite(d);
    crate::direction::lemma_opposite(d.flip());
    lemma_compatible_symmetric(m.samples@[i], m.samples@[j], d);
    assert(m.adj(i, d.index()) == compatible_tiles(
        m.samples@,
        m.samples@[i],
        Direction::of_index(d.index()),
        m.tiles(),
    ));
    assert(m.adj(j, d.flip().index()) == compatible_tiles(
        m.samples@,
        m.samples@[j],
        Direction::of_index(d.flip().index()),
        m.tiles(),
    ));
}

/// Turn `r` (one to three quarter turns) of window `k` in an extraction
/// with `p` windows.
pub open spec fn turned(s: Seq<Sample>, p: int, k: int, r: int) -> Sample {
    s[p + 3 * k + r - 1]
}

/// `s` is the pattern list of `img` at size `n`: first the window at each
/// pixel (the one at pixel `k` at index `k`), then, with `rotation`, the
/// three further quarter turns of each window in order.
pub open spec fn is_extraction(img: Image, n: int, rotation: bool, s: Seq<Sample>) -> bool {
    let p = img.pixels@.len() as int;
    &&& s.len() == p * if rotation {
        4int
    } else {
        1int
    }
    &&& forall|i: int|
        0 <= i < s.len() ==> (#[trigger] s[i]).wf() && s[i].width() == n && s[i].height() == n
    &&& forall|k: int|
        0 <= k < p ==> is_window(
            img,
            #[trigger] s[k],
            k % img.width as int,
            k / img.width as int,
            n,
        )
    &&& rotation ==> forall|k: int, r: int|
        0 <= k < p && 1 <= r < 4 ==> is_rotation_of(
            #[trigger] turned(s, p, k, r),
            if r == 1 {
                s[k]
            } else {
                turned(s, p, k, r - 1)
            },
        )
}

/// The patterns of an exemplar: every `n` × `n` window (wrapping around the
/// edges), the window with its corner at pixel `k` at index `k`; with
/// `rotation`, followed by the three further quarter turns of each window.
pub fn extract_patterns(image: &Image, n: usize, rotation: bool) -> (r: Vec<Sample>)
    requires
        image.wf(),
        image.width > 0,
        image.height > 0,
        1 <= n,
        image.width + n <= i32::MAX,
        image.height + n <= i32::MAX,
        n * n <= usize::MAX,
    ensures
        is_extraction(*image, n as int, rotation, r@),
{
    let windows = image.sample(n as i32);
    if !rotation {
        return windows;
    }
    let ghost wins = windows@;
    let total = windows.len();
    let mut all = windows;
    let mut k: usize = 0;
    while k < total
        invariant
            total == wins.len(),
            total == image.pixels@.len(),
            k <= total,
            all@.len() == total + 3 * k,
            forall|i: int| 0 <= i < total ==> #[trigger] all@[i] == wins[i],
            forall|i: int|
                0 <= i < total ==> is_window(
                    *image,
                    #[trigger] wins[i],
                    i % image.width as int,
                    i / image.width as int,
                    n as int,
                ),
            forall|i: int| 0 <= i < all@.len() ==> (#[trigger] all@[i]).wf(),
            forall|i: int|
                0 <= i < all@.len() ==> (#[trigger] all@[i]).width() == n && all@[i].height() == n,
            forall|k2: int, r: int|
                0 <= k2 < k && 1 <= r < 4 ==> is_rotation_of(
                    #[trigger] turned(all@, total as int, k2, r),
                    if r == 1 {
                        all@[k2]
                    } else {
                        turned(all@, total as int, k2, r - 1)
                    },
                ),
        decreases total - k,
    {
        let mut rots = all[k].rotate();
        let ghost rs = rots@;
        assert(is_rotation_of(rs[1], rs[0]));
        assert(is_rotation_of(rs[2], rs[1]));
        assert(is_rotation_of(rs[3], rs[2]));
        let r3 = rots.pop().unwrap();
        let r2 = rots.pop().unwrap();
        let r1 = rots.pop().unwrap();
        assert(r1 == rs[1] && r2 == rs[2] && r3 == rs[3]);
        let ghost prev = all@;
        all.push(r1);
        all.push(r2);
        all.push(r3);
        proof {
            assert(is_rotation_of(r1, prev[k as int]));
            assert forall|k2: int, r: int| 0 <= k2 < k + 1 && 1 <= r < 4 implies is_rotation_of(
                #[trigger] turned(all@, total as int, k2, r),
                if r == 1 {
                    all@[k2]
                } else {
                    turned(all@, total as int, k2, r - 1)
                },
            ) by {
                assert(all@[k2] == prev[k2]);
                if k2 < k {
                    assert(turned(all@, total as int, k2, r) == turned(prev, total as int, k2, r));
                    if r > 1 {
                        assert(turned(all@, total as int, k2, r - 1) == turned(prev, total as int, k2, r - 1));
                    }
                } else {
                    assert(3 * k2 == 3 * k);
                }
            }
        }
        k = k + 1;
    }
    all
}

/// Every pixel of `s` has colour `c`.
pub open spec fn uniform_sample(s: Sample, c: Seq<u8>) -> bool {
    forall|x: int, y: int| 0 <= x < s.width() && 0 <= y < s.height() ==> #[trigger] s.px(x, y) == c
}

/// Every pixel of `img` has the colour of its first pixel.
pub open spec fn uniform_image(img: Image) -> bool {
    forall|i: int| 0 <= i < img.pixels@.len() ==> #[trigger] img.pixels@[i]@ == img.pixels@[0]@
}

/// Two single-coloured `n` × `n` patterns of the same colour are equal.
proof fn lemma_uniform_same(a: Sample, b: Sample, c: Seq<u8>, n: int)
    requires
        a.wf(),
        b.wf(),
        a.width() == n,
        a.height() == n,
        b.width() == n,
        b.height() == n,
        uniform_sample(a, c),
        uniform_sample(b, c),
    ensures
        a.same_as(&b),
{
    assert forall|i: int| 0 <= i < a.region.data@.len() implies #[trigger] a.region.data@[i]@
        == b.region.data@[i]@ by {
        crate::grid2d::lemma_coord_of(n, n, i);
        assert(a.px(i % n, i / n) == c);
        assert(b.px(i % n, i / n) == c);
    }
}

/// A quarter turn of a single-coloured pattern is single-coloured.
proof fn lemma_turn_uniform(r: Sample, prev: Sample, c: Seq<u8>)
    requires
        is_rotation_of(r, prev),
        uniform_sample(prev, c),
    ensures
        uniform_sample(r, c),
{
    assert forall|x: int, y: int| 0 <= x < r.width() && 0 <= y < r.height() implies #[trigger] r.px(x, y)
        == c by {
        assert(prev.px(y, prev.height() - 1 - x) == c);
    }
}

/// The model of a single-coloured exemplar has one tile, and that tile may
/// sit next to itself in every direction.
pub proof fn lemma_uniform_model(img: Image, n: int, rotation: bool, m: Model)
    requires
        img.wf(),
        img.width > 0,
        img.height > 0,
        n >= 1,
        uniform_image(img),
        m.wf(),
        forall|i: int| 0 <= i < m.tiles() ==> (#[trigger] m.samples@[i]).width() == n && m.samples@[i].height() == n,
        exists|s: Seq<Sample>| #[trigger] is_extraction(img, n, rotation, s) && m.tallies(s),
    ensures
        m.tiles() == 1,
        forall|d: int| 0 <= d < 4 ==> #[trigger] m.adj(0, d).contains(0usize),
{
    let s = choose|s: Seq<Sample>| #[trigger] is_extraction(img, n, rotation, s) && m.tallies(s);
    let c = img.pixels@[0]@;
    let p = img.pixels@.len() as int;
    assert(p >= 1) by {
        assert(img.width * img.height >= 1) by (nonlinear_arith)
            requires
                img.width >= 1,
                img.height >= 1,
        ;
    }
    assert forall|k: int| 0 <= k < p implies uniform_sample(#[trigger] s[k], c) by {
        assert(is_window(img, s[k], k % img.width as int, k / img.width as int, n));
        assert forall|x: int, y: int| 0 <= x < s[k].width() && 0 <= y < s[k].height() implies #[trigger] s[k].px(x, y)
            == c by {
            let px = (k % img.width as int + x) % img.width as int;
            let py = (k / img.width as int + y) % img.height as int;
            crate::grid2d::lemma_coord_of(img.width as int, img.height as int, k);
            vstd::arithmetic::div_mod::lemma_mod_bound(k % img.width as int + x, img.width as int);
            vstd::arithmetic::div_mod::lemma_mod_bound(k / img.width as int + y, img.height as int);
            crate::grid2d::lemma_row_major(img.width as int, img.height as int, px, py);
            assert(img.pixels@[py * img.width + px]@ == c);
        }
    }
    if rotation {
        assert forall|k: int| 0 <= k < p implies uniform_sample(#[trigger] turned(s, p, k, 1), c) by {
            lemma_turn_uniform(turned(s, p, k, 1), s[k], c);
        }
        assert forall|k: int| 0 <= k < p implies uniform_sample(#[trigger] turned(s, p, k, 2), c) by {
            assert(uniform_sample(turned(s, p, k, 1), c));
            lemma_turn_uniform(turned(s, p, k, 2), turned(s, p, k, 1), c);
        }
        assert forall|k: int| 0 <= k < p implies uniform_sample(#[trigger] turned(s, p, k, 3), c) by {
            assert(uniform_sample(turned(s, p, k, 1), c));
            assert(uniform_sample(turned(s, p, k, 2), c));
            lemma_turn_uniform(turned(s, p, k, 3), turned(s, p, k, 2), c);
        }
    }
    assert forall|k: int| 0 <= k < s.len() implies uniform_sample(#[trigger] s[k], c) by {
        if k >= p {
            let kk = (k - p) / 3;
            let r = (k - p) % 3 + 1;
            assert(p + 3 * kk + r - 1 == k);
            assert(0 <= kk < p);
            assert(uniform_sample(turned(s, p, kk, r), c));
        }
    }
    assert forall|i: int| 0 <= i < m.tiles() implies uniform_sample(#[trigger] m.samples@[i], c) by {
        assert(m.freq_map@[i].1.0 >= 1);
        let k = lemma_occurrences_witness(s, m.samples@[i]);
        lemma_same_as_px(s[k], m.samples@[i]);
        assert(uniform_sample(s[k], c));
    }
    assert(s[0].same_as(&s[0])) by {
        lemma_same_as(s[0], s[0], s[0]);
    }
    let i0 = choose|i: int| 0 <= i < m.tiles() && (#[trigger] s[0]).same_as(&m.samples@[i]);
    if m.tiles() >= 2 {
        lemma_uniform_same(m.samples@[0], m.samples@[1], c, n);
        assert(!m.samples@[0].same_as(&m.samples@[1]));
    }
    let t = m.samples@[0];
    assert forall|d: int| 0 <= d < 4 implies #[trigger] m.adj(0, d).contains(0usize) by {
        assert(uniform_sample(t, c));
        assert forall|x: int, y: int| #[trigger] agrees_at(t, t, Direction::of_index(d), x, y) by {}
        assert(compatible_spec(t, t, Direction::of_index(d)));
        assert(m.adj(0, d) == compatible_tiles(m.samples@, t, Direction::of_index(d), m.tiles()));
    }
}

impl Model {
    /// The model of a list of patterns: duplicates merged and counted, tile
    /// indices in order of first occurrence, and the adjacency of every
    /// ordered pair in every direction.
    pub fn from_samples(input: &Vec<Sample>) -> (r: Model)
        requires
            input@.len() <= u32::MAX,
            forall|i: int| 0 <= i < input@.len() ==> (#[trigger] input@[i]).wf(),
        ensures
            r.wf(),
            r.total_count() == input@.len(),
            r.tallies(input@),
    {
        let total = input.len();
        let mut samples: Vec<Sample> = Vec::new();
        let mut freq: Vec<(SampleID, (u32, u64))> = Vec::new();
        let mut k: usize = 0;
        while k < total
            invariant
                total == input@.len(),
                total <= u32::MAX,
                forall|i: int| 0 <= i < input@.len() ==> (#[trigger] input@[i]).wf(),
                k <= total,
                samples@.len() == freq@.len(),
                forall|j: int| 0 <= j < samples@.len() ==> (#[trigger] samples@[j]).wf(),
                forall|j: int|
                    0 <= j < samples@.len() ==> {
                        &&& (#[trigger] freq@[j]).0 == j
                        &&& freq@[j].1.0 == occurrences(input@.subrange(0, k as int), samples@[j])
                        &&& freq@[j].1.0 >= 1
                    },
                forall|i: int, j: int|
                    #![trigger samples@[i], samples@[j]]
                    0 <= i < samples@.len() && 0 <= j < samples@.len() && i != j
                        ==> !samples@[i].same_as(&samples@[j]),
                forall|k2: int|
                    0 <= k2 < k ==> exists|j: int|
                        0 <= j < samples@.len() && (#[trigger] input@[k2]).same_as(&samples@[j]),
                count_sum(freq@, samples@.len() as int) == k,
            decreases total - k,
        {
            let s = &input[k];
            let n = samples.len();
            let mut j: usize = 0;
            let mut found = false;
            while j < n && !found
                invariant
                    n == samples@.len(),
                    j <= n,
                    *s == input@[k as int],
                    found ==> j < n && s.same_as(&samples@[j as int]),
                    !found ==> forall|j2: int| 0 <= j2 < j ==> !s.same_as(&#[trigger] samples@[j2]),
                decreases n - j + if found {
                    0int
                } else {
                    1int
                },
            {
                if s.same_pixels(&samples[j]) {
                    found = true;
                } else {
                    j = j + 1;
                }
            }
            let ghost before = input@.subrange(0, k as int);
            let ghost after = input@.subrange(0, k + 1);
            assert(after =~= before.push(input@[k as int]));
            let ghost old_freq = freq@;
            let ghost old_samples = samples@;
            if found {
                let (id, (c, l)) = freq[j];
                proof {
                    lemma_occurrences_bound(before, samples@[j as int]);
                }
                freq.set(j, (id, (c + 1, l)));
                proof {
                    assert forall|j2: int| 0 <= j2 < samples@.len() implies {
                        &&& (#[trigger] freq@[j2]).0 == j2
                        &&& freq@[j2].1.0 == occurrences(after, samples@[j2])
                        &&& freq@[j2].1.0 >= 1
                    } by {
                        lemma_occurrences_push(before, input@[k as int], samples@[j2]);
                        if j2 != j {
                            lemma_same_as(samples@[j as int], input@[k as int], samples@[j2]);
                            lemma_same_as(input@[k as int], samples@[j as int], samples@[j2]);
                        }
                    }
                    assert forall|k2: int| 0 <= k2 < k + 1 implies exists|j3: int|
                        0 <= j3 < samples@.len() && (#[trigger] input@[k2]).same_as(
                            &samples@[j3],
                        ) by {
                        if k2 == k {
                            assert(input@[k2].same_as(&samples@[j as int]));
                        }
                    }
                    lemma_count_sum_update(old_freq, freq@, j as int, n as int);
                }
            } else {
                let copy = s.duplicate();
                proof {
                    lemma_same_as(input@[k as int], copy, copy);
                    assert(copy.same_as(&input@[k as int]));
                    assert(input@[k as int].same_as(&copy));
                    lemma_occurrences_congruent(before, copy, input@[k as int]);
                    if occurrences(before, input@[k as int]) > 0 {
                        let k2 = lemma_occurrences_witness(before, input@[k as int]);
                        assert(input@[k2].same_as(&input@[k as int]));
                        let j3 = choose|j3: int|
                            0 <= j3 < samples@.len() && (#[trigger] input@[k2]).same_as(
                                &samples@[j3],
                            );
                        lemma_same_as(input@[k as int], input@[k2], samples@[j3]);
                        lemma_same_as(input@[k2], input@[k as int], input@[k as int]);
                        assert(false);
                    }
                    lemma_occurrences_push(before, input@[k as int], copy);
                }
                samples.push(copy);
                freq.push((n, (1, 0)));
                proof {
                    assert forall|j2: int| 0 <= j2 < samples@.len() implies {
                        &&& (#[trigger] freq@[j2]).0 == j2
                        &&& freq@[j2].1.0 == occurrences(after, samples@[j2])
                        &&& freq@[j2].1.0 >= 1
                    } by {
                        lemma_occurrences_push(before, input@[k as int], samples@[j2]);
                        if j2 < n {
                            assert(old_samples[j2] == samples@[j2]);
                            assert(old_freq[j2] == freq@[j2]);
                        }
                    }
                    assert forall|i: int, j2: int|
                        #![trigger samples@[i], samples@[j2]]
                        0 <= i < samples@.len() && 0 <= j2 < samples@.len() && i != j2
                            implies !samples@[i].same_as(&samples@[j2]) by {
                        if i == n {
                            lemma_same_as(input@[k as int], copy, samples@[j2]);
                        } else if j2 == n {
                            lemma_same_as(samples@[i], copy, input@[k as int]);
                            lemma_same_as(input@[k as int], samples@[i], copy);
                            lemma_same_as(copy, input@[k as int], input@[k as int]);
                            lemma_same_as(input@[k as int], copy, samples@[i]);
                        } else {
                            assert(old_samples[i] == samples@[i]);
                            assert(old_samples[j2] == samples@[j2]);
                        }
                    }
                    assert forall|k2: int| 0 <= k2 < k + 1 implies exists|j3: int|
                        0 <= j3 < samples@.len() && (#[trigger] input@[k2]).same_as(
                            &samples@[j3],
                        ) by {
                        if k2 == k {
                            assert(input@[k2].same_as(&samples@[n as int]));
                        } else {
                            let j3 = choose|j3: int|
                                0 <= j3 < old_samples.len() && (#[trigger] input@[k2]).same_as(
                                    &old_samples[j3],
                                );
                            assert(samples@[j3] == old_samples[j3]);
                        }
                    }
                    lemma_count_sum_same(old_freq, freq@, n as int);
                }
            }
            k = k + 1;
        }
        assert(input@.subrange(0, total as int) =~= input@);
        let n = samples.len();
        let mut freq_map: Vec<(SampleID, (u32, u64))> = Vec::new();
        let mut i: usize = 0;
        while i < n
            invariant
                n == samples@.len(),
                n == freq@.len(),
                i <= n,
                freq_map@.len() == i,
                forall|j: int| 0 <= j < n ==> (#[trigger] freq@[j]).1.0 >= 1,
                forall|j: int|
                    0 <= j < i ==> {
                        &&& (#[trigger] freq_map@[j]).0 == j
                        &&& freq_map@[j].1.0 == freq@[j].1.0
                        &&& freq_map@[j].1.1 == plogp(freq@[j].1.0 as nat)
                    },
            decreases n - i,
        {
            let c = freq[i].1.0;
            let l = plogp_fixed(c);
            freq_map.push((i, (c, l)));
            i = i + 1;
        }
        proof {
            lemma_count_sum_same(freq@, freq_map@, n as int);
        }
        let mut adjacency_rule: Vec<[BitSet; 4]> = Vec::new();
        let mut a: usize = 0;
        while a < n
            invariant
                n == samples@.len(),
                forall|j: int| 0 <= j < samples@.len() ==> (#[trigger] samples@[j]).wf(),
                a <= n,
                adjacency_rule@.len() == a,
                forall|i2: int, d: int|
                    0 <= i2 < a && 0 <= d < 4 ==> #[trigger] set_items(adjacency_rule@[i2][d])
                        == compatible_tiles(samples@, samples@[i2], Direction::of_index(d), n as int),
            decreases n - a,
        {
            let up = compatible_set(&samples, a, Direction::Up);
            let right = compatible_set(&samples, a, Direction::Right);
            let down = compatible_set(&samples, a, Direction::Down);
            let left = compatible_set(&samples, a, Direction::Left);
            adjacency_rule.push([up, right, down, left]);
            proof {
                assert forall|i2: int, d: int| 0 <= i2 < a + 1 && 0 <= d < 4 implies #[trigger] set_items(
                    adjacency_rule@[i2][d],
                ) == compatible_tiles(samples@, samples@[i2], Direction::of_index(d), n as int) by {
                    if i2 == a {
                        if d == 0 {
                        } else if d == 1 {
                        } else if d == 2 {
                        } else {
                        }
                    }
                }
            }
            a = a + 1;
        }
        let r = Model { samples, freq_map, adjacency_rule };
        proof {
            assert forall|i2: int| 0 <= i2 < r.tiles() implies r.count(i2) == occurrences(
                input@,
                #[trigger] r.samples@[i2],
            ) by {
                assert(freq@[i2].1.0 == occurrences(input@.subrange(0, total as int), samples@[i2]));
            }
        }
        r
    }
}

impl Model {
    /// The tiles are the patterns of `s` without repeats, and each tile's
    /// count is the number of times it occurs in `s`.
    pub open spec fn tallies(&self, s: Seq<Sample>) -> bool {
        &&& forall|i: int|
            0 <= i < self.tiles() ==> self.count(i) == occurrences(s, #[trigger] self.samples@[i])
        &&& forall|k: int|
            0 <= k < s.len() ==> exists|i: int|
                0 <= i < self.tiles() && (#[trigger] s[k]).same_as(&self.samples@[i])
    }

    /// Some tile is the `n` × `n` window of `img` with its corner at `(x, y)`.
    pub open spec fn has_window(&self, img: Image, x: int, y: int, n: int) -> bool {
        exists|i: int| 0 <= i < self.tiles() && #[trigger] is_window(img, self.samples@[i], x, y, n)
    }

    /// The count of every tile.
    pub open spec fn counts(&self) -> Seq<int> {
        Seq::new(self.freq_map@.len(), |i: int| self.freq_map@[i].1.0 as int)
    }

    /// The `count·log2(count)` of every tile.
    pub open spec fn log_weights(&self) -> Seq<int> {
        Seq::new(self.freq_map@.len(), |i: int| self.freq_map@[i].1.1 as int)
    }

    /// Number of tiles.
    pub open spec fn tiles(&self) -> int {
        self.samples@.len() as int
    }

    pub open spec fn count(&self, i: int) -> int {
        self.freq_map@[i].1.0 as int
    }

    pub open spec fn log_weight(&self, i: int) -> int {
        self.freq_map@[i].1.1 as int
    }

    /// Tiles allowed next to tile `i` in the direction with index `d`.
    pub open spec fn adj(&self, i: int, d: int) -> Set<usize> {
        set_items(self.adjacency_rule@[i][d])
    }

    /// Sum of all the counts: the number of patterns extracted.
    pub open spec fn total_count(&self) -> int {
        count_sum(self.freq_map@, self.tiles())
    }

    pub open spec fn wf(&self) -> bool {
        &&& self.freq_map@.len() == self.tiles()
        &&& self.tiles() <= usize::MAX
        &&& self.adjacency_rule@.len() == self.tiles()
        &&& self.total_count() <= u32::MAX
        &&& forall|i: int| 0 <= i < self.tiles() ==> (#[trigger] self.samples@[i]).wf()
        &&& forall|i: int|
            0 <= i < self.tiles() ==> {
                &&& (#[trigger] self.freq_map@[i]).0 == i
                &&& self.freq_map@[i].1.0 >= 1
                &&& self.freq_map@[i].1.1 == plogp(self.freq_map@[i].1.0 as nat)
            }
        &&& forall|i: int, d: int|
            0 <= i < self.tiles() && 0 <= d < 4 ==> #[trigger] self.adj(i, d) == compatible_tiles(
                self.samples@,
                self.samples@[i],
                Direction::of_index(d),
                self.tiles(),
            )
        &&& forall|i: int, j: int|
            #![trigger self.samples@[i], self.samples@[j]]
            0 <= i < self.tiles() && 0 <= j < self.tiles() && i != j ==> !self.samples@[i].same_as(
                &self.samples@[j],
            )
    }

    /// The model of an exemplar: its `n_dimensions`-sized patterns (see
    /// `extract_patterns`), merged and counted, with their adjacency.
    pub fn create(image: &Image, n_dimensions: usize, rotation: bool) -> (r: Model)
        requires
            image.wf(),
            image.width > 0,
            image.height > 0,
            1 <= n_dimensions,
            image.width + n_dimensions <= i32::MAX,
            image.height + n_dimensions <= i32::MAX,
            n_dimensions * n_dimensions <= usize::MAX,
            image.pixels@.len() * 4 <= u32::MAX,
        ensures
            r.wf(),
            r.total_count() == image.pixels@.len() * if rotation {
                4int
            } else {
                1int
            },
            forall|i: int|
                0 <= i < r.tiles() ==> (#[trigger] r.samples@[i]).width() == n_dimensions
                    && r.samples@[i].height() == n_dimensions,
            forall|x: int, y: int|
                0 <= x < image.width && 0 <= y < image.height ==> #[trigger] r.has_window(
                    *image,
                    x,
                    y,
                    n_dimensions as int,
                ),
            exists|s: Seq<Sample>|
                #[trigger] is_extraction(*image, n_dimensions as int, rotation, s) && r.tallies(s),
    {
        let patterns = extract_patterns(image, n_dimensions, rotation);
        let r = Model::from_samples(&patterns);
        proof {
            assert(r.tallies(patterns@));
            assert(is_extraction(*image, n_dimensions as int, rotation, patterns@));
            assert forall|i: int| 0 <= i < r.tiles() implies (#[trigger] r.samples@[i]).width()
                == n_dimensions && r.samples@[i].height() == n_dimensions by {
                assert(r.freq_map@[i].1.0 >= 1);
                let k = lemma_occurrences_witness(patterns@, r.samples@[i]);
                lemma_same_as_px(patterns@[k], r.samples@[i]);
            }
            assert forall|x: int, y: int|
                0 <= x < image.width && 0 <= y < image.height implies #[trigger] r.has_window(
                *image,
                x,
                y,
                n_dimensions as int,
            ) by {
                let k = y * image.width + x;
                crate::grid2d::lemma_row_major(image.width as int, image.height as int, x, y);
                vstd::arithmetic::div_mod::lemma_fundamental_div_mod_converse(
                    k,
                    image.width as int,
                    y,
                    x,
                );
                let i = choose|i: int| 0 <= i < r.tiles() && (#[trigger] patterns@[k]).same_as(&r.samples@[i]);
                let p = patterns@[k];
                assert(is_window(*image, p, k % image.width as int, k / image.width as int, n_dimensions as int));
                lemma_same_as_px(p, r.samples@[i]);
                assert(is_window(
                    *image,
                    r.samples@[i],
                    k % image.width as int,
                    k / image.width as int,
                    n_dimensions as int,
                ));
            }
        }
        r
    }

    /// Count and `count·log2(count)` of a tile.
    pub fn get_relative_freq(&self, sample_id: SampleID) -> (r: (u32, u64))
        requires
            self.wf(),
            sample_id < self.tiles(),
        ensures
            r == self.freq_map@[sample_id as int].1,
    {
        self.freq_map[sample_id].1
    }

    /// Number of tiles.
    pub fn size(&self) -> (r: usize)
        ensures
            r == self.tiles(),
    {
        self.samples.len()
    }

    /// The tiles that may sit next to `sample_idx` in direction `dir`, in
    /// ascending order, or `None` when there are none.
    pub fn get_possible_nbrs(&self, sample_idx: SampleID, dir: Direction) -> (r: Option<
        Vec<SampleID>,
    >)
        requires
            self.wf(),
            sample_idx < self.tiles(),
        ensures
            r.is_none() <==> self.adj(sample_idx as int, dir.index()).is_empty(),
            r matches Some(v) ==> v@.to_set() == self.adj(sample_idx as int, dir.index()),
            r matches Some(v) ==> forall|a: int, b: int|
                0 <= a < b < v@.len() ==> v@[a] < v@[b],
    {
        let nbrs = set_members(&self.adjacency_rule[sample_idx][dir.to_idx()]);
        if nbrs.len() == 0 {
            proof {
                assert(nbrs@ =~= Seq::<usize>::empty());
                assert(nbrs@.to_set() =~= Set::<usize>::empty());
            }
            None
        } else {
            proof {
                assert(nbrs@.to_set().contains(nbrs@[0]));
            }
            Some(nbrs)
        }
    }

    /// For every tile, the number of tiles allowed next to it in each
    /// direction: the enabler counts of a cell where everything is possible.
    pub fn get_initial_tile_enabler_counts(&self) -> (r: Vec<TileEnablerCount>)
        requires
            self.wf(),
        ensures
            r@.len() == self.tiles(),
            forall|i: int, d: int|
                0 <= i < self.tiles() && 0 <= d < 4 ==> #[trigger] r@[i].by_direction@[d]
                    == self.adj(i, d).len(),
    {
        let mut ret: Vec<TileEnablerCount> = Vec::new();
        let n = self.samples.len();
        let mut tile: usize = 0;
        while tile < n
            invariant
                self.wf(),
                n == self.tiles(),
                tile <= n,
                ret@.len() == tile,
                forall|i: int, d: int|
                    0 <= i < tile && 0 <= d < 4 ==> #[trigger] ret@[i].by_direction@[d]
                        == self.adj(i, d).len(),
            decreases n - tile,
        {
            let rules = &self.adjacency_rule[tile];
            let c0 = set_len(&rules[0]);
            let c1 = set_len(&rules[1]);
            let c2 = set_len(&rules[2]);
            let c3 = set_len(&rules[3]);
            let counts = TileEnablerCount { by_direction: [c0, c1, c2, c3] };
            ret.push(counts);
            proof {
                assert forall|i: int, d: int| 0 <= i < tile + 1 && 0 <= d < 4 implies #[trigger] ret@[i].by_direction@[d] == self.adj(i, d).len() by {
                    if i == tile {
                        if d == 0 {
                        } else if d == 1 {
                        } else if d == 2 {
                        } else {
                        }
                    }
                }
            }
            tile = tile + 1;
        }
        ret
    }
}

} // verus!
