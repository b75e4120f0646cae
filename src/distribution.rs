//! Percentile distributions: piecewise-linear maps from a percentile to a
//! value, used to sample request latencies and response sizes.

use crate::text::{
    duration_text, find, find_byte, items_from, parse_duration_millis, parse_percent, parse_u64,
    percent_text, u64_text,
};
use indexmap::IndexMap;
use rand::Rng;
use vstd::arithmetic::div_mod::{lemma_div_is_ordered, lemma_div_multiples_vanish};
use vstd::arithmetic::mul::lemma_mul_inequality;
use vstd::prelude::*;
use vstd::string::StringSliceAdditionalSpecFns;

verus! {

/// The largest percentile: 100%, in millionths.
pub const PERCENTILE_MAX: u32 = 1_000_000;

/// Millionths of the whole per percent.
pub const PERCENT_FACTOR: u32 = 10_000;

/// A percentile as a fixed-point ratio: millionths of the whole, in
/// `[0, 1_000_000]`.
#[derive(Copy, Clone, Debug, PartialEq, Eq, Structural)]
pub struct Percentile(u32);

#[derive(Copy, Clone, Debug, PartialEq, Eq, Structural)]
pub struct InvalidPercentile;

impl Percentile {
    /// The fixed-point value, in millionths.
    pub closed spec fn spec_scaled(self) -> u32 {
        self.0
    }

    #[verifier::type_invariant]
    spec fn inv(self) -> bool {
        self.0 <= PERCENTILE_MAX
    }

    pub fn min_value() -> (r: Percentile)
        ensures
            r.spec_scaled() == 0,
    {
        Percentile(0)
    }

    pub fn max_value() -> (r: Percentile)
        ensures
            r.spec_scaled() == PERCENTILE_MAX,
    {
        Percentile(PERCENTILE_MAX)
    }

    /// The fixed-point value, in millionths.
    pub fn scaled(&self) -> (r: u32)
        ensures
            r == self.spec_scaled(),
            r <= PERCENTILE_MAX,
    {
        proof {
            use_type_invariant(self);
        }
        self.0
    }

    /// A whole percent in `[0, 100]`.
    pub fn try_from_percent(percent: u32) -> (r: Result<Percentile, InvalidPercentile>)
        ensures
            percent <= 100 <==> r is Ok,
            r is Ok ==> r->Ok_0.spec_scaled() == percent * PERCENT_FACTOR,
    {
        if percent > 100 {
            return Err(InvalidPercentile);
        }
        Ok(Percentile(percent * PERCENT_FACTOR))
    }

    /// A percent in decimal notation, as `percent_text` describes, in
    /// `[0, 100]`.
    pub fn parse(s: &str) -> (r: Result<Percentile, InvalidPercentile>)
        ensures
            r is Ok <==> (percent_text(s.spec_bytes()) matches Some(v) && v <= PERCENTILE_MAX),
            r is Ok ==> percent_text(s.spec_bytes()) == Some(r->Ok_0.spec_scaled() as u64),
    {
        let b = s.as_bytes();
        proof {
            assert(b@.subrange(0, b@.len() as int) =~= b@);
        }
        match parse_percent(b, 0, b.len()) {
            Some(v) => Percentile::try_from_scaled(v),
            None => Err(InvalidPercentile),
        }
    }

    /// Millionths in `[0, 1_000_000]`.
    pub fn try_from_scaled(scaled: u64) -> (r: Result<Percentile, InvalidPercentile>)
        ensures
            scaled <= PERCENTILE_MAX <==> r is Ok,
            r is Ok ==> r->Ok_0.spec_scaled() == scaled,
    {
        if scaled > PERCENTILE_MAX as u64 {
            return Err(InvalidPercentile);
        }
        Ok(Percentile(scaled as u32))
    }
}

/// Why a distribution could not be built or parsed.
#[derive(Copy, Clone, Debug, PartialEq, Eq, Structural)]
pub enum InvalidDistribution {
    Unordered,
    InvalidValue,
    InvalidPercentile,
}

/// A piecewise-linear distribution over percentiles.
pub struct Distribution {
    /// Sorted by percentile; holds both `0` and `PERCENTILE_MAX`.
    points: IndexMap<u32, u64>,
}

#[verifier::external_type_specification]
#[verifier::external_body]
#[verifier::reject_recursive_types(K)]
#[verifier::reject_recursive_types(V)]
#[verifier::reject_recursive_types(S)]
pub struct ExIndexMap<K, V, S>(IndexMap<K, V, S>);

/// The key-value pairs of an index map, in the map's order.
pub uninterp spec fn map_entries(m: IndexMap<u32, u64>) -> Seq<(u32, u64)>;

/// No key occurs twice.
pub open spec fn keys_unique(s: Seq<(u32, u64)>) -> bool {
    forall|i: int, j: int| 0 <= i < s.len() && 0 <= j < s.len() && i != j ==> s[i].0 != s[j].0
}

pub open spec fn has_key(s: Seq<(u32, u64)>, k: u32) -> bool {
    exists|i: int| 0 <= i < s.len() && s[i].0 == k
}

/// Relies on `rand::thread_rng` and `Rng::gen_range`: a draw from `0..=n`.
#[verifier::external_body]
pub(crate) fn random_up_to(n: u64) -> (r: u64)
    ensures
        r <= n,
{
    rand::thread_rng().gen_range(0..=n)
}

/// Relies on `IndexMap::new`: a new map is empty.
#[verifier::external_body]
fn points_new() -> (r: IndexMap<u32, u64>)
    ensures
        map_entries(r) == Seq::<(u32, u64)>::empty(),
{
    IndexMap::new()
}

/// Relies on `IndexMap::len`: the number of entries.
#[verifier::external_body]
fn points_len(m: &IndexMap<u32, u64>) -> (r: usize)
    ensures
        r == map_entries(*m).len(),
{
    m.len()
}

/// Relies on `IndexMap::get_index`: the entry at a position of the order.
#[verifier::external_body]
fn points_at(m: &IndexMap<u32, u64>, i: usize) -> (r: Option<(u32, u64)>)
    ensures
        i < map_entries(*m).len() ==> r == Some(map_entries(*m)[i as int]),
        i >= map_entries(*m).len() ==> r is None,
{
    m.get_index(i).map(|(k, v)| (*k, *v))
}

/// Relies on `IndexMap::get`: the value stored under a key.
#[verifier::external_body]
fn points_get(m: &IndexMap<u32, u64>, k: u32) -> (r: Option<u64>)
    ensures
        r is Some <==> has_key(map_entries(*m), k),
        forall|i: int|
            0 <= i < map_entries(*m).len() && map_entries(*m)[i].0 == k ==> r == Some(
                map_entries(*m)[i].1,
            ),
{
    m.get(&k).copied()
}

/// Relies on `IndexMap::insert`: an existing key keeps its place and takes
/// the new value; a new key goes last.
#[verifier::external_body]
fn points_insert(m: &mut IndexMap<u32, u64>, k: u32, v: u64)
    ensures
        forall|i: int|
            0 <= i < map_entries(*old(m)).len() && map_entries(*old(m))[i].0 == k
                ==> map_entries(*final(m)) == map_entries(*old(m)).update(i, (k, v)),
        !has_key(map_entries(*old(m)), k) ==> map_entries(*final(m)) == map_entries(
            *old(m),
        ).push((k, v)),
{
    m.insert(k, v);
}

/// Relies on `IndexMap::sort_keys`: the same entries, reordered by key.
#[verifier::external_body]
fn points_sort(m: &mut IndexMap<u32, u64>)
    requires
        keys_unique(map_entries(*old(m))),
    ensures
        map_entries(*final(m)).len() == map_entries(*old(m)).len(),
        forall|p: (u32, u64)|
            map_entries(*final(m)).contains(p) <==> map_entries(*old(m)).contains(p),
        strictly_sorted(map_entries(*final(m))),
{
    m.sort_keys();
}

// === Points ===

/// Keys strictly increase along the sequence.
pub open spec fn strictly_sorted(s: Seq<(u32, u64)>) -> bool {
    forall|i: int, j: int| 0 <= i < j < s.len() ==> s[i].0 < s[j].0
}

/// Values never decrease along the sequence.
pub open spec fn non_decreasing(s: Seq<(u32, u64)>) -> bool {
    forall|i: int, j: int| 0 <= i < j < s.len() ==> s[i].1 <= s[j].1
}

/// The points of a distribution: sorted by percentile, from `0` to
/// `PERCENTILE_MAX`, with values that never decrease.
pub open spec fn valid_points(s: Seq<(u32, u64)>) -> bool {
    &&& s.len() >= 2
    &&& s[0].0 == 0
    &&& s.last().0 == PERCENTILE_MAX
    &&& strictly_sorted(s)
    &&& non_decreasing(s)
}

/// `s` lists exactly the pairs of `m`.
pub open spec fn lists(s: Seq<(u32, u64)>, m: Map<u32, u64>) -> bool {
    &&& forall|i: int| 0 <= i < s.len() ==> m.contains_key(#[trigger] s[i].0) && m[s[i].0] == s[i].1
    &&& forall|k: u32| #[trigger] m.contains_key(k) ==> has_key(s, k)
}

/// The linear interpolation between two points, rounded down.
pub open spec fn interpolate(lo: (u32, u64), hi: (u32, u64), p: int) -> int {
    lo.1 + (hi.1 - lo.1) * (p - lo.0) / (hi.0 - lo.0)
}

/// Points `j - 1` and `j` enclose the percentile `p`.
pub open spec fn brackets(s: Seq<(u32, u64)>, j: int, p: int) -> bool {
    0 < j < s.len() && s[j - 1].0 <= p <= s[j].0
}

/// The value of the distribution with points `s` at percentile `p`.
pub open spec fn value_at(s: Seq<(u32, u64)>, p: int) -> int {
    let j = choose|j: int| brackets(s, j, p);
    interpolate(s[j - 1], s[j], p)
}

/// The map that inserting `pairs` in order leaves: a later pair for a
/// percentile replaces an earlier one.
pub open spec fn inserted(pairs: Seq<(u64, u64)>) -> Map<u32, u64>
    decreases pairs.len(),
{
    if pairs.len() == 0 {
        Map::empty()
    } else {
        inserted(pairs.drop_last()).insert(pairs.last().0 as u32, pairs.last().1)
    }
}

/// Every percentile is at most `PERCENTILE_MAX`.
pub open spec fn in_range(pairs: Seq<(u64, u64)>) -> bool {
    forall|i: int| 0 <= i < pairs.len() ==> pairs[i].0 <= PERCENTILE_MAX
}

/// A missing minimum percentile takes the value zero.
pub open spec fn with_min(m: Map<u32, u64>) -> Map<u32, u64> {
    if m.contains_key(0) {
        m
    } else {
        m.insert(0, 0)
    }
}

/// The greatest key of `m`.
pub open spec fn top_key(m: Map<u32, u64>) -> u32 {
    choose|k: u32| m.contains_key(k) && forall|k2: u32| m.contains_key(k2) ==> k2 <= k
}

/// A missing maximum percentile takes the value of the greatest one present.
pub open spec fn with_max(m: Map<u32, u64>) -> Map<u32, u64> {
    if m.contains_key(PERCENTILE_MAX) {
        m
    } else {
        m.insert(PERCENTILE_MAX, m[top_key(m)])
    }
}

/// Values never decrease as percentiles grow.
pub open spec fn ordered(m: Map<u32, u64>) -> bool {
    forall|a: u32, b: u32|
        m.contains_key(a) && m.contains_key(b) && a < b ==> m[a] <= m[b]
}

/// The points that `pairs` (percentiles in millionths) describe.
pub open spec fn described(pairs: Seq<(u64, u64)>) -> Map<u32, u64> {
    with_max(with_min(inserted(pairs)))
}

/// Pairs with whole percents, in millionths.
pub open spec fn scale_pairs(pairs: Seq<(u32, u64)>) -> Seq<(u64, u64)> {
    pairs.map_values(|pv: (u32, u64)| ((pv.0 * PERCENT_FACTOR) as u64, pv.1))
}

/// Whether the values of the map never decrease along its order.
fn values_non_decreasing(points: &IndexMap<u32, u64>) -> (r: bool)
    ensures
        r == non_decreasing(map_entries(*points)),
{
    let ghost s = map_entries(*points);
    let n = points_len(points);
    let mut base: u64 = 0;
    let mut j: usize = 0;
    while j < n
        invariant
            s == map_entries(*points),
            n == s.len(),
            0 <= j <= n,
            non_decreasing(s.take(j as int)),
            j > 0 ==> base == s[j - 1].1,
            j == 0 ==> base == 0,
        decreases n - j,
    {
        let (_, v) = points_at(points, j).unwrap();
        if v < base {
            proof {
                assert(!(s[j - 1].1 <= s[j as int].1));
            }
            return false;
        }
        proof {
            let t = s.take(j + 1);
            let u = s.take(j as int);
            assert forall|a: int, b: int| 0 <= a < b < t.len() implies t[a].1 <= t[b].1 by {
                if b == j && a < j - 1 {
                    assert(u[a].1 <= u[j - 1].1);
                } else if b < j {
                    assert(u[a].1 <= u[b].1);
                }
            }
        }
        base = v;
        j += 1;
    }
    proof {
        assert(s.take(n as int) =~= s);
    }
    true
}

/// Inserts the pairs in order, each percentile in millionths; `None` when
/// one is out of range.
fn insert_pairs(pairs: &Vec<(u64, u64)>) -> (r: Option<IndexMap<u32, u64>>)
    ensures
        r is None <==> !in_range(pairs@),
        r is Some ==> keys_unique(map_entries(r->Some_0)) && lists(
            map_entries(r->Some_0),
            inserted(pairs@),
        ) && forall|q: int|
            0 <= q < map_entries(r->Some_0).len() ==> #[trigger] map_entries(r->Some_0)[q].0
                <= PERCENTILE_MAX,
{
    let mut points = points_new();
    let mut i: usize = 0;
    while i < pairs.len()
        invariant
            0 <= i <= pairs.len(),
            keys_unique(map_entries(points)),
            lists(map_entries(points), inserted(pairs@.take(i as int))),
            in_range(pairs@.take(i as int)),
            forall|q: int|
                0 <= q < map_entries(points).len() ==> #[trigger] map_entries(points)[q].0
                    <= PERCENTILE_MAX,
        decreases pairs.len() - i,
    {
        let (p, v) = pairs[i];
        let pc = match Percentile::try_from_scaled(p) {
            Ok(pc) => pc,
            Err(_) => {
                proof {
                    assert(!(pairs@[i as int].0 <= PERCENTILE_MAX));
                }
                return None;
            },
        };
        let k = pc.scaled();
        let ghost before = map_entries(points);
        points_insert(&mut points, k, v);
        proof {
            lemma_insert_lists(before, map_entries(points), inserted(pairs@.take(i as int)), k, v);
            assert(pairs@.take(i + 1).drop_last() =~= pairs@.take(i as int));
            let t = map_entries(points);
            assert forall|q: int| 0 <= q < t.len() implies #[trigger] t[q].0 <= PERCENTILE_MAX by {
                if t[q].0 != k {
                    let r = choose|r: int| 0 <= r < before.len() && before[r].0 == t[q].0;
                    assert(before[r].0 <= PERCENTILE_MAX);
                }
            }
        }
        i += 1;
    }
    proof {
        assert(pairs@.take(pairs.len() as int) =~= pairs@);
    }
    Some(points)
}

/// Gives a missing minimum percentile the value zero.
fn add_min(points: &mut IndexMap<u32, u64>, Ghost(m): Ghost<Map<u32, u64>>)
    requires
        keys_unique(map_entries(*old(points))),
        lists(map_entries(*old(points)), m),
        forall|q: int|
            0 <= q < map_entries(*old(points)).len() ==> #[trigger] map_entries(*old(points))[q].0
                <= PERCENTILE_MAX,
    ensures
        keys_unique(map_entries(*final(points))),
        lists(map_entries(*final(points)), with_min(m)),
        forall|q: int|
            0 <= q < map_entries(*final(points)).len() ==> #[trigger] map_entries(
                *final(points),
            )[q].0 <= PERCENTILE_MAX,
{
    if points_get(points, 0).is_none() {
        let ghost before = map_entries(*points);
        points_insert(points, 0, 0);
        proof {
            lemma_insert_lists(before, map_entries(*points), m, 0, 0);
            let t = map_entries(*points);
            assert forall|q: int| 0 <= q < t.len() implies #[trigger] t[q].0 <= PERCENTILE_MAX by {
                if t[q].0 != 0 {
                    let r = choose|r: int| 0 <= r < before.len() && before[r].0 == t[q].0;
                    assert(before[r].0 <= PERCENTILE_MAX);
                }
            }
        }
    } else {
        proof {
            let q = choose|q: int| 0 <= q < map_entries(*points).len() && map_entries(*points)[q].0 == 0;
            assert(m.contains_key(map_entries(*points)[q].0));
        }
    }
}

/// The last key of a sorted listing is the greatest key of the map.
proof fn lemma_top_key(s: Seq<(u32, u64)>, m: Map<u32, u64>)
    requires
        strictly_sorted(s),
        lists(s, m),
        s.len() > 0,
    ensures
        top_key(m) == s.last().0,
        m[top_key(m)] == s.last().1,
{
    let top = s.last().0;
    assert(m.contains_key(s[s.len() - 1].0));
    assert forall|k2: u32| m.contains_key(k2) implies k2 <= top by {
        let q = choose|q: int| 0 <= q < s.len() && s[q].0 == k2;
        if q < s.len() - 1 {
            assert(s[q].0 < s[s.len() - 1].0);
        }
    }
    let tk = top_key(m);
    assert(m.contains_key(tk) && forall|k2: u32| m.contains_key(k2) ==> k2 <= tk);
}

/// Appending a point past every key keeps the listing sorted, and appending
/// the last value keeps it non-decreasing.
proof fn lemma_push_max(s: Seq<(u32, u64)>)
    requires
        strictly_sorted(s),
        non_decreasing(s),
        s.len() > 0,
        forall|q: int| 0 <= q < s.len() ==> #[trigger] s[q].0 < PERCENTILE_MAX,
    ensures
        strictly_sorted(s.push((PERCENTILE_MAX, s.last().1))),
        non_decreasing(s.push((PERCENTILE_MAX, s.last().1))),
{
    let t = s.push((PERCENTILE_MAX, s.last().1));
    assert forall|a: int, b: int| 0 <= a < b < t.len() implies t[a].0 < t[b].0 by {
        if b < s.len() {
            assert(s[a].0 < s[b].0);
        } else {
            assert(s[a].0 < PERCENTILE_MAX);
        }
    }
    assert forall|a: int, b: int| 0 <= a < b < t.len() implies t[a].1 <= t[b].1 by {
        if b < s.len() {
            assert(s[a].1 <= s[b].1);
        } else if a < s.len() - 1 {
            assert(s[a].1 <= s[s.len() - 1].1);
        }
    }
}

/// The first key of a sorted listing that holds key zero is zero.
proof fn lemma_first_key_zero(t: Seq<(u32, u64)>)
    requires
        strictly_sorted(t),
        has_key(t, 0),
    ensures
        t[0].0 == 0,
{
    let q = choose|q: int| 0 <= q < t.len() && t[q].0 == 0;
    if q > 0 {
        assert(t[0].0 < t[q].0);
    }
}

/// Gives a missing maximum percentile the value of the greatest one present.
fn add_max(points: &mut IndexMap<u32, u64>, Ghost(m1): Ghost<Map<u32, u64>>)
    requires
        strictly_sorted(map_entries(*old(points))),
        non_decreasing(map_entries(*old(points))),
        lists(map_entries(*old(points)), m1),
        m1.contains_key(0),
        forall|q: int|
            0 <= q < map_entries(*old(points)).len() ==> #[trigger] map_entries(*old(points))[q].0
                <= PERCENTILE_MAX,
    ensures
        m1.contains_key(PERCENTILE_MAX) ==> map_entries(*final(points)) == map_entries(*old(points)),
        !m1.contains_key(PERCENTILE_MAX) ==> map_entries(*final(points)) == map_entries(
            *old(points),
        ).push((PERCENTILE_MAX, map_entries(*old(points)).last().1)),
        valid_points(map_entries(*final(points))),
{
    let ghost s = map_entries(*points);
    proof {
        assert(has_key(s, 0));
    }
    let n = points_len(points);
    let base = points_at(points, n - 1).unwrap().1;
    if points_get(points, PERCENTILE_MAX).is_none() {
        proof {
            assert forall|q: int| 0 <= q < s.len() implies #[trigger] s[q].0 < PERCENTILE_MAX by {
                assert(s[q].0 <= PERCENTILE_MAX);
                assert(s[q].0 != PERCENTILE_MAX);
            }
            lemma_push_max(s);
        }
        points_insert(points, PERCENTILE_MAX, base);
        proof {
            assert(has_key(map_entries(*points), 0)) by {
                let q = choose|q: int| 0 <= q < s.len() && s[q].0 == 0;
                assert(map_entries(*points)[q].0 == 0);
            }
            lemma_first_key_zero(map_entries(*points));
        }
    } else {
        proof {
            let q = choose|q: int| 0 <= q < s.len() && s[q].0 == PERCENTILE_MAX;
            if q < s.len() - 1 {
                assert(s[q].0 < s[s.len() - 1].0);
            }
            lemma_first_key_zero(s);
        }
    }
}

// === impl Distribution ===

impl View for Distribution {
    type V = Seq<(u32, u64)>;

    /// The points, sorted by percentile.
    closed spec fn view(&self) -> Seq<(u32, u64)> {
        map_entries(self.points)
    }
}

impl Distribution {
    #[verifier::type_invariant]
    spec fn inv(self) -> bool {
        valid_points(map_entries(self.points))
    }

    /// Builds a distribution from `(percentile, value)` pairs with
    /// percentiles in millionths. A later pair for a percentile replaces an
    /// earlier one; a missing minimum takes the value zero and a missing
    /// maximum the value of the greatest percentile given.
    pub fn build_scaled(pairs: Vec<(u64, u64)>) -> (r: Result<Distribution, InvalidDistribution>)
        ensures
            !in_range(pairs@) ==> r == Err::<Distribution, _>(InvalidDistribution::InvalidPercentile),
            in_range(pairs@) && !ordered(with_min(inserted(pairs@))) ==> r == Err::<
                Distribution,
                _,
            >(InvalidDistribution::Unordered),
            r is Ok <==> in_range(pairs@) && ordered(with_min(inserted(pairs@))),
            r is Ok ==> lists(r->Ok_0@, described(pairs@)) && valid_points(r->Ok_0@),
            built_from(r, pairs@),
    {
        let mut points = match insert_pairs(&pairs) {
            Some(points) => points,
            None => {
                return Err(InvalidDistribution::InvalidPercentile);
            },
        };
        let ghost m0 = inserted(pairs@);
        let ghost m1 = with_min(m0);
        add_min(&mut points, Ghost(m0));
        let ghost before_sort = map_entries(points);
        points_sort(&mut points);
        proof {
            lemma_reorder_lists(before_sort, map_entries(points), m1);
            let t = map_entries(points);
            assert forall|q: int| 0 <= q < t.len() implies #[trigger] t[q].0 <= PERCENTILE_MAX by {
                let r = choose|r: int| 0 <= r < before_sort.len() && before_sort[r].0 == t[q].0;
                assert(before_sort[r].0 <= PERCENTILE_MAX);
            }
        }
        let ghost s = map_entries(points);
        proof {
            lemma_sorted_listing_ordered(s, m1);
        }
        if !values_non_decreasing(&points) {
            return Err(InvalidDistribution::Unordered);
        }
        let ghost before_max = map_entries(points);
        add_max(&mut points, Ghost(m1));
        proof {
            lemma_top_key(before_max, m1);
            if !m1.contains_key(PERCENTILE_MAX) {
                lemma_insert_lists(
                    before_max,
                    map_entries(points),
                    m1,
                    PERCENTILE_MAX,
                    before_max.last().1,
                );
            }
        }
        Ok(Distribution { points })
    }

    /// Builds a distribution from `(percent, value)` pairs with whole
    /// percents in `[0, 100]`; see `build_scaled`.
    pub fn build(pairs: Vec<(u32, u64)>) -> (r: Result<Distribution, InvalidDistribution>)
        ensures
            (exists|i: int| 0 <= i < pairs@.len() && pairs@[i].0 > 100) ==> r == Err::<
                Distribution,
                _,
            >(InvalidDistribution::InvalidPercentile),
            in_range(scale_pairs(pairs@)) && !ordered(with_min(inserted(scale_pairs(pairs@))))
                ==> r == Err::<Distribution, _>(InvalidDistribution::Unordered),
            r is Ok <==> in_range(scale_pairs(pairs@)) && ordered(
                with_min(inserted(scale_pairs(pairs@))),
            ),
            r is Ok ==> lists(r->Ok_0@, described(scale_pairs(pairs@))) && valid_points(r->Ok_0@),
    {
        let mut scaled: Vec<(u64, u64)> = Vec::new();
        let mut i: usize = 0;
        while i < pairs.len()
            invariant
                0 <= i <= pairs.len(),
                scaled@ =~= scale_pairs(pairs@.take(i as int)),
            decreases pairs.len() - i,
        {
            let (p, v) = pairs[i];
            scaled.push(((p as u64) * (PERCENT_FACTOR as u64), v));
            proof {
                assert(pairs@.take(i + 1) =~= pairs@.take(i as int).push(pairs@[i as int]));
            }
            i += 1;
        }
        proof {
            assert(pairs@.take(pairs.len() as int) =~= pairs@);
            assert forall|i: int| 0 <= i < pairs@.len() && pairs@[i].0 > 100 implies !in_range(
                scale_pairs(pairs@),
            ) by {
                assert(scale_pairs(pairs@)[i].0 > PERCENTILE_MAX);
            }
        }
        Distribution::build_scaled(scaled)
    }

    /// Parses `v`, `p=v` or `p1=v1,p2=v2,...` with percents `p` in
    /// decimal notation and unsigned integer values `v`.
    pub fn from_str(s: &str) -> (r: Result<Distribution, InvalidDistribution>)
        ensures
            parsed_from(r, s.spec_bytes(), false),
    {
        parse_text(s, false)
    }

    /// Like `from_str`, with durations (`0`, `Nms`, `Ns`) as values, in
    /// milliseconds.
    pub fn from_latency_str(s: &str) -> (r: Result<Distribution, InvalidDistribution>)
        ensures
            parsed_from(r, s.spec_bytes(), true),
    {
        parse_text(s, true)
    }

    /// The value at a uniformly drawn percentile.
    pub fn sample(&self) -> (r: u64)
        ensures
            self@[0].1 <= r <= self@.last().1,
            exists|p: int| 0 <= p <= PERCENTILE_MAX && r == value_at(self@, p),
    {
        let p = Percentile::try_from_scaled(random_up_to(PERCENTILE_MAX as u64)).unwrap();
        self.get(p)
    }

    /// The value at the minimum percentile.
    pub fn min(&self) -> (r: u64)
        ensures
            r == self@[0].1,
    {
        proof {
            use_type_invariant(self);
        }
        points_get(&self.points, 0).unwrap()
    }

    /// The value at the maximum percentile.
    pub fn max(&self) -> (r: u64)
        ensures
            r == self@.last().1,
    {
        proof {
            use_type_invariant(self);
        }
        points_get(&self.points, PERCENTILE_MAX).unwrap()
    }

    /// The value at a whole percent, which must lie in `[0, 100]`.
    pub fn try_get(&self, percent: u32) -> (r: Result<u64, InvalidPercentile>)
        ensures
            r is Ok <==> percent <= 100,
            r is Ok ==> r->Ok_0 == value_at(self@, percent * PERCENT_FACTOR),
    {
        let p = Percentile::try_from_percent(percent)?;
        Ok(self.get(p))
    }

    /// The value at a percentile: an explicit point's own value, else the
    /// linear interpolation between the two points around it, rounded down.
    pub fn get(&self, p: Percentile) -> (r: u64)
        ensures
            r == value_at(self@, p.spec_scaled() as int),
            self@[0].1 <= r <= self@.last().1,
    {
        proof {
            use_type_invariant(self);
            use_type_invariant(&p);
        }
        let ghost s = map_entries(self.points);
        let pc = p.scaled();
        proof {
            lemma_value_within_bounds(s, pc as int);
        }
        let n = points_len(&self.points);
        let mut lower: (u32, u64) = (0, 0);
        let mut i: usize = 0;
        while i < n
            invariant
                s == map_entries(self.points),
                valid_points(s),
                n == s.len(),
                pc <= PERCENTILE_MAX,
                pc == p.spec_scaled(),
                0 <= i <= n,
                forall|q: int| 0 <= q < i ==> #[trigger] s[q].0 < pc,
                i > 0 ==> lower == s[i - 1],
            decreases n - i,
        {
            let (k, v) = points_at(&self.points, i).unwrap();
            if k == pc {
                proof {
                    if i == 0 {
                        lemma_value_at(s, 1, pc as int);
                        lemma_interpolate_bounds(s[0], s[1], pc as int);
                    } else {
                        lemma_value_at(s, i as int, pc as int);
                        lemma_interpolate_bounds(s[i - 1], s[i as int], pc as int);
                    }
                }
                return v;
            }
            if k > pc {
                let (lo_p, lo_v) = lower;
                proof {
                    assert(i > 0);
                    assert(s[i - 1].1 <= s[i as int].1);
                    lemma_value_at(s, i as int, pc as int);
                    lemma_interpolate_bounds(s[i - 1], s[i as int], pc as int);
                }
                let v_delta = (v - lo_v) as u128;
                let x = (pc - lo_p) as u128;
                let p_delta = (k - lo_p) as u128;
                proof {
                    assert(v_delta * x <= 0xffff_ffff_ffff_ffffu128 * 1_000_000u128) by (nonlinear_arith)
                        requires
                            v_delta <= 0xffff_ffff_ffff_ffffu128,
                            x <= 1_000_000u128,
                    ;
                }
                let added = v_delta * x / p_delta;
                return lo_v + added as u64;
            }
            lower = (k, v);
            i += 1;
        }
        proof {
            assert(s[n - 1].0 < pc);
        }
        0
    }
}

impl Default for Distribution {
    /// Zero at every percentile.
    fn default() -> (r: Distribution)
        ensures
            r@ == seq![(0u32, 0u64), (PERCENTILE_MAX, 0u64)],
    {
        let mut points = points_new();
        points_insert(&mut points, 0, 0);
        points_insert(&mut points, PERCENTILE_MAX, 0);
        proof {
            assert(map_entries(points) =~= seq![(0u32, 0u64), (PERCENTILE_MAX, 0u64)]);
        }
        Distribution { points }
    }
}

// === Parsing ===

/// A value of a distribution in text: a duration in milliseconds when
/// `durations`, else an unsigned integer.
pub open spec fn value_text(t: Seq<u8>, durations: bool) -> Option<u64> {
    if durations {
        duration_text(t)
    } else {
        u64_text(t)
    }
}


/// One `percent=value` item.
pub open spec fn item_pair(item: Seq<u8>, durations: bool) -> Result<(u64, u64), InvalidDistribution> {
    let e = find(item, 61, 0);
    if e < 0 {
        Err(InvalidDistribution::InvalidPercentile)
    } else {
        match percent_text(item.take(e)) {
            None => Err(InvalidDistribution::InvalidPercentile),
            Some(p) => match value_text(item.skip(e + 1), durations) {
                None => Err(InvalidDistribution::InvalidValue),
                Some(v) => Ok((p, v)),
            },
        }
    }
}

/// The pairs of the items, in order; the first item that fails decides the
/// error.
pub open spec fn items_pairs(items: Seq<Seq<u8>>, durations: bool) -> Result<Seq<(u64, u64)>, InvalidDistribution>
    decreases items.len(),
{
    if items.len() == 0 {
        Ok(Seq::empty())
    } else {
        match item_pair(items[0], durations) {
            Err(e) => Err(e),
            Ok(pv) => match items_pairs(items.skip(1), durations) {
                Err(e) => Err(e),
                Ok(ps) => Ok(seq![pv] + ps),
            },
        }
    }
}

/// The pairs that a distribution text describes, percentiles in millionths
/// (`PERCENT_OUT_OF_RANGE` past the range). A lone value without `=`
/// stands for the minimum percentile, and so for the whole distribution.
pub open spec fn text_pairs(t: Seq<u8>, durations: bool) -> Result<Seq<(u64, u64)>, InvalidDistribution> {
    if find(t, 44, 0) < 0 && find(t, 61, 0) < 0 {
        match value_text(t, durations) {
            None => Err(InvalidDistribution::InvalidValue),
            Some(v) => Ok(seq![(0u64, v)]),
        }
    } else {
        items_pairs(items_from(t, 44, 0), durations)
    }
}

/// `r` is what building a distribution from `pairs` gives.
pub open spec fn built_from(r: Result<Distribution, InvalidDistribution>, pairs: Seq<(u64, u64)>) -> bool {
    if !in_range(pairs) {
        r == Err::<Distribution, _>(InvalidDistribution::InvalidPercentile)
    } else if !ordered(with_min(inserted(pairs))) {
        r == Err::<Distribution, _>(InvalidDistribution::Unordered)
    } else {
        r is Ok && lists(r->Ok_0@, described(pairs)) && valid_points(r->Ok_0@)
    }
}

/// `r` is what parsing the distribution text `t` gives.
pub open spec fn parsed_from(r: Result<Distribution, InvalidDistribution>, t: Seq<u8>, durations: bool) -> bool {
    match text_pairs(t, durations) {
        Err(e) => r == Err::<Distribution, _>(e),
        Ok(pairs) => built_from(r, pairs),
    }
}

fn parse_value(b: &[u8], lo: usize, hi: usize, durations: bool) -> (r: Option<u64>)
    requires
        lo <= hi <= b@.len(),
    ensures
        r == value_text(b@.subrange(lo as int, hi as int), durations),
{
    if durations {
        parse_duration_millis(b, lo, hi)
    } else {
        parse_u64(b, lo, hi)
    }
}

fn parse_item(b: &[u8], lo: usize, hi: usize, durations: bool) -> (r: Result<(u64, u64), InvalidDistribution>)
    requires
        lo <= hi <= b@.len(),
    ensures
        r == item_pair(b@.subrange(lo as int, hi as int), durations),
{
    let ghost item = b@.subrange(lo as int, hi as int);
    let e = find_byte(b, lo, hi, lo, 61);
    if e == hi {
        return Err(InvalidDistribution::InvalidPercentile);
    }
    proof {
        assert(item.take(e - lo) =~= b@.subrange(lo as int, e as int));
        assert(item.skip(e - lo + 1) =~= b@.subrange(e + 1, hi as int));
    }
    let p = match parse_percent(b, lo, e) {
        Some(p) => p,
        None => {
            return Err(InvalidDistribution::InvalidPercentile);
        },
    };
    match parse_value(b, e + 1, hi, durations) {
        Some(v) => Ok((p, v)),
        None => Err(InvalidDistribution::InvalidValue),
    }
}

/// `ps` before the pairs of `r`, or the error of `r`.
pub open spec fn prepend(ps: Seq<(u64, u64)>, r: Result<Seq<(u64, u64)>, InvalidDistribution>) -> Result<Seq<(u64, u64)>, InvalidDistribution> {
    match r {
        Ok(q) => Ok(ps + q),
        Err(e) => Err(e),
    }
}

/// Parses a distribution text as `text_pairs` describes, then builds it.
pub(crate) fn parse_text(s: &str, durations: bool) -> (r: Result<Distribution, InvalidDistribution>)
    ensures
        parsed_from(r, s.spec_bytes(), durations),
{
    let b = s.as_bytes();
    let n = b.len();
    let ghost t = b@;
    proof {
        assert(b@.subrange(0, n as int) =~= b@);
    }
    let comma = find_byte(b, 0, n, 0, 44);
    let eq = find_byte(b, 0, n, 0, 61);
    if comma == n && eq == n {
        return match parse_value(b, 0, n, durations) {
            Some(v) => {
                let mut pairs: Vec<(u64, u64)> = Vec::new();
                pairs.push((0u64, v));
                proof {
                    assert(pairs@ =~= seq![(0u64, v)]);
                }
                Distribution::build_scaled(pairs)
            },
            None => Err(InvalidDistribution::InvalidValue),
        };
    }
    let mut pairs: Vec<(u64, u64)> = Vec::new();
    let mut start: usize = 0;
    proof {
        assert(pairs@ + Seq::<(u64, u64)>::empty() =~= pairs@);
        assert(items_pairs(items_from(t, 44, 0), durations) == prepend(pairs@, items_pairs(items_from(t, 44, 0), durations))) by {
            match items_pairs(items_from(t, 44, 0), durations) {
                Ok(q) => {
                    assert(pairs@ + q =~= q);
                },
                Err(_) => {},
            }
        }
    }
    loop
        invariant
            0 <= start <= n,
            n == b@.len(),
            t == b@,
            t == s.spec_bytes(),
            !(find(t, 44, 0) < 0 && find(t, 61, 0) < 0),
            items_pairs(items_from(t, 44, 0), durations) == prepend(
                pairs@,
                items_pairs(items_from(t, 44, start as int), durations),
            ),
        decreases n - start,
    {
        let e = find_byte(b, 0, n, start, 44);
        let ghost item = t.subrange(start as int, e as int);
        let ghost rest = if e < n {
            items_from(t, 44, e + 1)
        } else {
            Seq::<Seq<u8>>::empty()
        };
        proof {
            assert(b@.subrange(0, n as int) =~= t);
            assert(items_from(t, 44, start as int) =~= seq![item] + rest);
            assert((seq![item] + rest)[0] == item);
            assert((seq![item] + rest).skip(1) =~= rest);
        }
        let pv = match parse_item(b, start, e, durations) {
            Err(err) => {
                return Err(err);
            },
            Ok(pv) => pv,
        };
        let ghost before = pairs@;
        pairs.push(pv);
        proof {
            match items_pairs(rest, durations) {
                Ok(q) => {
                    assert(before + (seq![pv] + q) =~= pairs@ + q);
                },
                Err(_) => {},
            }
        }
        if e == n {
            proof {
                assert(items_pairs(rest, durations) == Ok::<Seq<(u64, u64)>, InvalidDistribution>(Seq::empty()));
                assert(pairs@ + Seq::<(u64, u64)>::empty() =~= pairs@);
            }
            return Distribution::build_scaled(pairs);
        }
        start = e + 1;
    }
}

// === Lemmas ===

/// Interpolation stays between the two points and meets them at their ends.
pub proof fn lemma_interpolate_bounds(lo: (u32, u64), hi: (u32, u64), p: int)
    requires
        lo.0 < hi.0,
        lo.0 <= p <= hi.0,
        lo.1 <= hi.1,
    ensures
        lo.1 <= interpolate(lo, hi, p) <= hi.1,
        p == lo.0 ==> interpolate(lo, hi, p) == lo.1,
        p == hi.0 ==> interpolate(lo, hi, p) == hi.1,
{
    let d: int = hi.1 - lo.1;
    let x: int = p - lo.0;
    let w: int = hi.0 - lo.0;
    lemma_mul_inequality(x, w, d);
    assert(x * d == d * x && w * d == d * w) by (nonlinear_arith);
    assert(0 <= d * x) by (nonlinear_arith)
        requires
            0 <= d,
            0 <= x,
    ;
    lemma_div_is_ordered(0, d * x, w);
    lemma_div_is_ordered(d * x, d * w, w);
    lemma_div_multiples_vanish(d, w);
    assert(w * d == d * w) by (nonlinear_arith);
    if x == 0 {
        assert(d * x == 0) by (nonlinear_arith)
            requires
                x == 0,
        ;
    }
}

/// Any bracketing pair of points gives the value at `p`.
pub proof fn lemma_value_at(s: Seq<(u32, u64)>, j: int, p: int)
    requires
        valid_points(s),
        brackets(s, j, p),
    ensures
        value_at(s, p) == interpolate(s[j - 1], s[j], p),
{
    let k = choose|k: int| brackets(s, k, p);
    assert(brackets(s, k, p));
    lemma_interpolate_bounds(s[j - 1], s[j], p);
    lemma_interpolate_bounds(s[k - 1], s[k], p);
    if k < j {
        if k < j - 1 {
            assert(s[k].0 < s[j - 1].0);
        }
        assert(k == j - 1);
    } else if j < k {
        if j < k - 1 {
            assert(s[j].0 < s[k - 1].0);
        }
        assert(j == k - 1);
    }
}

/// Sampling stays between the smallest and the largest value of a
/// distribution.
pub proof fn lemma_value_within_bounds(s: Seq<(u32, u64)>, p: int)
    requires
        valid_points(s),
        0 <= p <= PERCENTILE_MAX,
    ensures
        s[0].1 <= value_at(s, p) <= s.last().1,
{
    let j = lemma_bracket_exists(s, p);
    lemma_value_at(s, j, p);
    lemma_interpolate_bounds(s[j - 1], s[j], p);
    assert(s[0].1 <= s[j - 1].1);
    if j < s.len() - 1 {
        assert(s[j].1 <= s.last().1);
    }
}

/// Every percentile in range lies between two adjacent points.
pub proof fn lemma_bracket_exists(s: Seq<(u32, u64)>, p: int) -> (j: int)
    requires
        valid_points(s),
        0 <= p <= PERCENTILE_MAX,
    ensures
        brackets(s, j, p),
    decreases s.len(),
{
    let n = s.len();
    if s[n - 2].0 <= p {
        n - 1
    } else {
        let t = s.drop_last();
        assert(n > 2);
        assert(t[0].0 == 0);
        assert(t.last().0 > p);
        let u = t.update(t.len() - 1, (PERCENTILE_MAX, t.last().1));
        assert(strictly_sorted(u)) by {
            assert forall|a: int, b: int| 0 <= a < b < u.len() implies u[a].0 < u[b].0 by {
                if b == u.len() - 1 {
                    assert(s[a].0 < s[n - 1].0);
                } else {
                    assert(s[a].0 < s[b].0);
                }
            }
        }
        assert(non_decreasing(u)) by {
            assert forall|a: int, b: int| 0 <= a < b < u.len() implies u[a].1 <= u[b].1 by {
                assert(s[a].1 <= s[b].1);
            }
        }
        let j = lemma_bracket_exists(u, p);
        assert(j < u.len() - 1 || s[j - 1].0 <= p <= s[j].0);
        j
    }
}

/// A sequence sorted by key lists an ordered map exactly when its values
/// never decrease.
pub proof fn lemma_sorted_listing_ordered(s: Seq<(u32, u64)>, m: Map<u32, u64>)
    requires
        strictly_sorted(s),
        lists(s, m),
    ensures
        ordered(m) <==> non_decreasing(s),
{
    if ordered(m) {
        assert forall|i: int, j: int| 0 <= i < j < s.len() implies s[i].1 <= s[j].1 by {
            assert(m.contains_key(s[i].0));
            assert(m.contains_key(s[j].0));
        }
    }
    if non_decreasing(s) {
        assert forall|a: u32, b: u32|
            m.contains_key(a) && m.contains_key(b) && a < b implies m[a] <= m[b] by {
            let i = choose|i: int| 0 <= i < s.len() && s[i].0 == a;
            let j = choose|j: int| 0 <= j < s.len() && s[j].0 == b;
            assert(m.contains_key(s[i].0));
            assert(m.contains_key(s[j].0));
            if j <= i {
                if j < i {
                    assert(s[j].0 < s[i].0);
                }
            }
        }
    }
}

/// Inserting into an index map keeps its keys unique and lists the map with
/// the new pair.
proof fn lemma_insert_lists(s: Seq<(u32, u64)>, t: Seq<(u32, u64)>, m: Map<u32, u64>, k: u32, v: u64)
    requires
        keys_unique(s),
        lists(s, m),
        forall|i: int| 0 <= i < s.len() && s[i].0 == k ==> t == s.update(i, (k, v)),
        !has_key(s, k) ==> t == s.push((k, v)),
    ensures
        keys_unique(t),
        lists(t, m.insert(k, v)),
        forall|q: int| 0 <= q < t.len() ==> t[q].0 == k || has_key(s, #[trigger] t[q].0),
{
    let m2 = m.insert(k, v);
    if has_key(s, k) {
        let i = choose|i: int| 0 <= i < s.len() && s[i].0 == k;
        assert(t == s.update(i, (k, v)));
        assert forall|q: int| 0 <= q < t.len() implies m2.contains_key(#[trigger] t[q].0) && m2[t[q].0] == t[q].1 by {
            if q != i {
                assert(s[q].0 != k);
                assert(m.contains_key(s[q].0));
            }
        }
        assert forall|k2: u32| m2.contains_key(k2) implies has_key(t, k2) by {
            if k2 != k {
                assert(m.contains_key(k2));
                let q = choose|q: int| 0 <= q < s.len() && s[q].0 == k2;
                assert(t[q].0 == k2);
            } else {
                assert(t[i].0 == k2);
            }
        }
        assert forall|q: int| 0 <= q < t.len() implies t[q].0 == k || has_key(s, #[trigger] t[q].0) by {
            if q != i {
                assert(s[q].0 == t[q].0);
            }
        }
    } else {
        assert(t == s.push((k, v)));
        assert forall|q: int| 0 <= q < t.len() implies m2.contains_key(#[trigger] t[q].0) && m2[t[q].0] == t[q].1 by {
            if q < s.len() {
                assert(s[q].0 != k);
                assert(m.contains_key(s[q].0));
            }
        }
        assert forall|k2: u32| m2.contains_key(k2) implies has_key(t, k2) by {
            if k2 != k {
                assert(m.contains_key(k2));
                let q = choose|q: int| 0 <= q < s.len() && s[q].0 == k2;
                assert(t[q].0 == k2);
            } else {
                assert(t[s.len() as int].0 == k2);
            }
        }
        assert forall|q: int| 0 <= q < t.len() implies t[q].0 == k || has_key(s, #[trigger] t[q].0) by {
            if q < s.len() {
                assert(s[q].0 == t[q].0);
            }
        }
    }
}

/// A reordering with the same pairs lists the same map.
proof fn lemma_reorder_lists(s: Seq<(u32, u64)>, t: Seq<(u32, u64)>, m: Map<u32, u64>)
    requires
        lists(s, m),
        forall|p: (u32, u64)| t.contains(p) <==> s.contains(p),
    ensures
        lists(t, m),
        forall|q: int| 0 <= q < t.len() ==> has_key(s, #[trigger] t[q].0),
{
    assert forall|q: int| 0 <= q < t.len() implies m.contains_key(#[trigger] t[q].0) && m[t[q].0] == t[q].1 && has_key(s, t[q].0) by {
        assert(t.contains(t[q]));
        assert(s.contains(t[q]));
        let i = choose|i: int| 0 <= i < s.len() && s[i] == t[q];
        assert(m.contains_key(s[i].0));
    }
    assert forall|k: u32| m.contains_key(k) implies has_key(t, k) by {
        let i = choose|i: int| 0 <= i < s.len() && s[i].0 == k;
        assert(s.contains(s[i]));
        assert(t.contains(s[i]));
        let q = choose|q: int| 0 <= q < t.len() && t[q] == s[i];
        assert(t[q].0 == k);
    }
}

} // verus!
