use std::collections::HashSet;
use vstd::prelude::*;

verus! {

broadcast use vstd::std_specs::hash::group_hash_axioms;

/// A tier: its id and the ids of the tables that make it up, in order.
pub type Tier = (usize, Vec<usize>);

/// The engine's level metadata: the sorted runs, the bottom (oldest) one last.
pub struct LsmStorageState {
    pub levels: Vec<Tier>,
}

/// A tiered compaction: the tiers to merge, and whether the bottom tier is among them.
pub struct TieredCompactionTask {
    pub tiers: Vec<Tier>,
    pub bottom_tier_included: bool,
}

/// Settings of the tiered compaction controller.
pub struct TieredCompactionOptions {
    /// Fewest tiers at which any trigger is considered.
    pub num_tiers: usize,
    /// Tables above the bottom tier, in percent of the bottom tier, that merge everything.
    pub max_size_amplification_percent: usize,
    /// Percent by which a tier must outgrow all tiers before it to merge them.
    pub size_ratio: usize,
    /// Fewest tiers that a size-ratio merge takes.
    pub min_merge_width: usize,
    /// Most tiers that a tier-count reduction takes, if bounded.
    pub max_merge_width: Option<usize>,
}

/// Decides tiered compactions and folds their results into new snapshots.
pub struct TieredCompactionController {
    options: TieredCompactionOptions,
}

/// The mathematical view of a sequence of tiers.
pub open spec fn tiers_view(t: Seq<Tier>) -> Seq<(usize, Seq<usize>)> {
    t.map_values(|p: Tier| (p.0, p.1@))
}

/// Number of tables in the first `n` tiers.
pub open spec fn total_size(levels: Seq<(usize, Seq<usize>)>, n: int) -> int
    decreases n,
{
    if n <= 0 {
        0
    } else {
        total_size(levels, n - 1) + levels[n - 1].1.len()
    }
}

/// Tables above the bottom tier, relative to the bottom tier, reach the percentage
/// `max_pct`. With an empty bottom tier the ratio is infinite unless nothing lies above it.
pub open spec fn space_amp_triggered(levels: Seq<(usize, Seq<usize>)>, max_pct: int) -> bool {
    let n = levels.len() as int;
    let size = total_size(levels, n - 1);
    let bottom = levels[n - 1].1.len() as int;
    (size > 0 || bottom > 0) && size * 100 >= max_pct * bottom
}

/// Tier `i` outgrows all tiers before it by more than `(100 + size_ratio)` percent,
/// and at least `min_width` tiers lie before it.
pub open spec fn size_ratio_triggered(
    levels: Seq<(usize, Seq<usize>)>,
    size_ratio: int,
    min_width: int,
    i: int,
) -> bool {
    &&& i >= min_width
    &&& levels[i].1.len() * 100 > (100 + size_ratio) * total_size(levels, i)
}

/// The first index from `i` on at which the size-ratio trigger fires.
pub open spec fn first_size_ratio_trigger(
    levels: Seq<(usize, Seq<usize>)>,
    size_ratio: int,
    min_width: int,
    i: int,
) -> Option<int>
    decreases levels.len() - i,
{
    if i >= levels.len() || i < 0 {
        None
    } else if size_ratio_triggered(levels, size_ratio, min_width, i) {
        Some(i)
    } else {
        first_size_ratio_trigger(levels, size_ratio, min_width, i + 1)
    }
}

/// How many of `n` tiers the tier-count reduction merges.
pub open spec fn merge_width(max_merge_width: Option<usize>, n: int) -> int {
    match max_merge_width {
        Some(w) => if (w as int) < n { w as int } else { n },
        None => n,
    }
}

/// The decision on a snapshot: how many of the oldest tiers to merge and whether
/// that includes the bottom tier, or `None` for no compaction.
pub open spec fn compaction_choice(
    opts: TieredCompactionOptions,
    levels: Seq<(usize, Seq<usize>)>,
) -> Option<(int, bool)> {
    let n = levels.len() as int;
    if n == 0 || n < opts.num_tiers {
        None
    } else if space_amp_triggered(levels, opts.max_size_amplification_percent as int) {
        Some((n, true))
    } else {
        match first_size_ratio_trigger(
            levels,
            opts.size_ratio as int,
            opts.min_merge_width as int,
            1,
        ) {
            Some(i) => Some((i, false)),
            None => {
                let w = merge_width(opts.max_merge_width, n);
                Some((w, w >= n))
            },
        }
    }
}

/// One more tier keeps a running table count within the product bound.
proof fn lemma_size_step(k: int, s: int, x: int)
    requires
        0 <= k < usize::MAX,
        0 <= s <= k * usize::MAX,
        0 <= x <= usize::MAX,
    ensures
        s + x <= (k + 1) * usize::MAX,
        (k + 1) * usize::MAX <= usize::MAX * usize::MAX,
        usize::MAX * usize::MAX < u128::MAX,
{
    assert((k + 1) * usize::MAX == k * usize::MAX + usize::MAX) by (nonlinear_arith);
    assert((k + 1) * usize::MAX <= usize::MAX * usize::MAX) by (nonlinear_arith)
        requires
            k + 1 <= usize::MAX,
    ;
    assert(usize::MAX * usize::MAX < u128::MAX) by (nonlinear_arith);
}

/// Copies the first `k` tiers.
fn copy_tiers(levels: &Vec<Tier>, k: usize) -> (r: Vec<Tier>)
    requires
        k <= levels@.len(),
    ensures
        tiers_view(r@) == tiers_view(levels@).take(k as int),
{
    let mut r: Vec<Tier> = Vec::new();
    let mut i: usize = 0;
    while i < k
        invariant
            k <= levels@.len(),
            i <= k,
            r@.len() == i,
            tiers_view(r@) == tiers_view(levels@).take(i as int),
        decreases k - i,
    {
        let tables = copy_ids(&levels[i].1);
        r.push((levels[i].0, tables));
        assert(tiers_view(r@)[i as int] == tiers_view(levels@)[i as int]);
        assert(tiers_view(r@) =~= tiers_view(levels@).take(i + 1));
        i = i + 1;
    }
    r
}

/// Copies a slice of table ids.
fn copy_ids_slice(v: &[usize]) -> (r: Vec<usize>)
    ensures
        r@ == v@,
{
    let mut r: Vec<usize> = Vec::new();
    let mut i: usize = 0;
    while i < v.len()
        invariant
            i <= v@.len(),
            r@ == v@.take(i as int),
        decreases v@.len() - i,
    {
        r.push(v[i]);
        assert(r@ =~= v@.take(i + 1));
        i = i + 1;
    }
    assert(r@ =~= v@);
    r
}

/// Copies a list of table ids.
fn copy_ids(v: &Vec<usize>) -> (r: Vec<usize>)
    ensures
        r@ == v@,
{
    let mut r: Vec<usize> = Vec::new();
    let mut i: usize = 0;
    while i < v.len()
        invariant
            i <= v@.len(),
            r@ == v@.take(i as int),
        decreases v@.len() - i,
    {
        r.push(v[i]);
        assert(r@ =~= v@.take(i + 1));
        i = i + 1;
    }
    assert(r@ =~= v@);
    r
}

/// The ids of the given tiers.
pub open spec fn tier_ids(t: Seq<(usize, Seq<usize>)>) -> Set<usize> {
    Set::new(|id: usize| exists|k: int| 0 <= k < t.len() && t[k].0 == id)
}

/// No two tiers share an id.
pub open spec fn ids_distinct(t: Seq<(usize, Seq<usize>)>) -> bool {
    forall|i: int, j: int| 0 <= i < j < t.len() ==> t[i].0 != t[j].0
}

/// The walk over the first tiers of a snapshot that folds in a compaction of the
/// tiers with ids in `ids`: the tiers kept so far (with the new tier spliced in where
/// the last selected tier was consumed), the tables removed so far in order, the ids
/// not yet met, and whether the new tier is in.
pub open spec fn apply_walk(
    levels: Seq<(usize, Seq<usize>)>,
    ids: Set<usize>,
    output: Seq<usize>,
) -> (Seq<(usize, Seq<usize>)>, Seq<usize>, Set<usize>, bool)
    decreases levels.len(),
{
    if levels.len() == 0 {
        (Seq::empty(), Seq::empty(), ids, false)
    } else {
        let prev = apply_walk(levels.drop_last(), ids, output);
        let t = levels.last();
        let step = if prev.2.contains(t.0) {
            (prev.0, prev.1 + t.1, prev.2.remove(t.0))
        } else {
            (prev.0.push(t), prev.1, prev.2)
        };
        if step.2.is_empty() && !prev.3 {
            (step.0.push((output[0], output)), step.1, step.2, true)
        } else {
            (step.0, step.1, step.2, prev.3)
        }
    }
}

/// With at least `num_tiers` tiers and the space amplification at its threshold, the
/// space-amplification trigger wins: all tiers are merged, the bottom tier with them,
/// whatever the size-ratio trigger would say.
pub proof fn lemma_space_amp_takes_priority(
    opts: TieredCompactionOptions,
    levels: Seq<(usize, Seq<usize>)>,
)
    requires
        levels.len() > 0,
        levels.len() >= opts.num_tiers,
        levels[levels.len() - 1].1.len() > 0,
        total_size(levels, levels.len() - 1) * 100 == opts.max_size_amplification_percent
            * levels[levels.len() - 1].1.len(),
    ensures
        compaction_choice(opts, levels) == Some((levels.len() as int, true)),
{
}

/// What a walk over a prefix has left of the selected ids, and whether it has placed
/// the new tier.
proof fn lemma_walk_progress(
    levels: Seq<(usize, Seq<usize>)>,
    ids: Set<usize>,
    output: Seq<usize>,
)
    ensures
        apply_walk(levels, ids, output).2 == ids.difference(tier_ids(levels)),
        apply_walk(levels, ids, output).3 == (levels.len() > 0 && ids.subset_of(
            tier_ids(levels),
        )),
    decreases levels.len(),
{
    if levels.len() == 0 {
        assert(ids.difference(tier_ids(levels)) =~= ids);
    } else {
        let pre = levels.drop_last();
        lemma_walk_progress(pre, ids, output);
        let t = levels.last();
        assert forall|id: usize| #[trigger] tier_ids(levels).contains(id) == (tier_ids(
            pre,
        ).contains(id) || id == t.0) by {
            if tier_ids(levels).contains(id) {
                let k = choose|k: int| 0 <= k < levels.len() && #[trigger] levels[k].0 == id;
                if k < pre.len() {
                    assert(pre[k].0 == id);
                }
            }
            if tier_ids(pre).contains(id) {
                let k = choose|k: int| 0 <= k < pre.len() && #[trigger] pre[k].0 == id;
                assert(levels[k].0 == id);
            }
            if id == t.0 {
                assert(levels[levels.len() - 1].0 == id);
            }
        }
        let prev = apply_walk(pre, ids, output);
        let rest = ids.difference(tier_ids(levels));
        if prev.2.contains(t.0) {
            assert(prev.2.remove(t.0) =~= rest);
        } else {
            assert(prev.2 =~= rest);
        }
        if pre.len() > 0 && ids.subset_of(tier_ids(pre)) {
            assert(ids.subset_of(tier_ids(levels)));
        }
        assert(rest.is_empty() == ids.subset_of(tier_ids(levels))) by {
            if rest.is_empty() {
                assert forall|id: usize| ids.contains(id) implies tier_ids(levels).contains(id) by {
                    assert(!rest.contains(id));
                }
            }
            if ids.subset_of(tier_ids(levels)) {
                assert(rest =~= Set::<usize>::empty());
            }
        }
    }
}

/// Where every selected tier stands in the snapshot, folding in a compaction finds
/// them all, and the output tier is placed whenever the snapshot has tiers.
pub proof fn lemma_apply_consumes_task(
    levels: Seq<(usize, Seq<usize>)>,
    task: Seq<(usize, Seq<usize>)>,
    output: Seq<usize>,
)
    requires
        forall|k: int| 0 <= k < task.len() ==> levels.contains(#[trigger] task[k]),
    ensures
        apply_walk(levels, tier_ids(task), output).2.is_empty(),
        apply_walk(levels, tier_ids(task), output).3 == (levels.len() > 0),
{
    lemma_walk_progress(levels, tier_ids(task), output);
    assert forall|id: usize| tier_ids(task).contains(id) implies tier_ids(levels).contains(id) by {
        let k = choose|k: int| 0 <= k < task.len() && #[trigger] task[k].0 == id;
        assert(levels.contains(task[k]));
        let j = choose|j: int| 0 <= j < levels.len() && levels[j] == task[k];
        assert(levels[j].0 == id);
    }
    let rest = tier_ids(task).difference(tier_ids(levels));
    assert(rest =~= Set::<usize>::empty());
}

/// Appends table ids to a list.
fn append_ids(dst: &mut Vec<usize>, src: &Vec<usize>)
    ensures
        final(dst)@ == old(dst)@ + src@,
{
    let mut i: usize = 0;
    while i < src.len()
        invariant
            i <= src@.len(),
            dst@ == old(dst)@ + src@.take(i as int),
        decreases src@.len() - i,
    {
        dst.push(src[i]);
        assert(dst@ =~= old(dst)@ + src@.take(i + 1));
        i = i + 1;
    }
    assert(src@.take(src@.len() as int) =~= src@);
}

impl TieredCompactionController {
    /// The settings the controller was made with.
    pub closed spec fn options(&self) -> TieredCompactionOptions {
        self.options
    }

    /// Creates a controller with the given settings.
    pub fn new(options: TieredCompactionOptions) -> (r: Self)
        ensures
            r.options() == options,
    {
        Self { options }
    }

    /// Decides whether a tiered compaction should run on `snapshot`, and which tiers
    /// it merges: space amplification first, then size ratio, then tier-count reduction.
    /// Ratios are compared exactly, by cross-multiplying table counts.
    pub fn generate_compaction_task(&self, snapshot: &LsmStorageState) -> (r: Option<
        TieredCompactionTask,
    >)
        ensures
            ({
                let levels = tiers_view(snapshot.levels@);
                match compaction_choice(self.options(), levels) {
                    None => r is None,
                    Some((k, b)) => r matches Some(t) && tiers_view(t.tiers@) == levels.take(k)
                        && t.bottom_tier_included == b,
                }
            }),
    {
        let ghost levels = tiers_view(snapshot.levels@);
        let n = snapshot.levels.len();
        if n == 0 || n < self.options.num_tiers {
            return None;
        }
        let mut size: u128 = 0;
        let mut id: usize = 0;
        while id < n - 1
            invariant
                n == snapshot.levels@.len(),
                levels == tiers_view(snapshot.levels@),
                0 < n,
                id <= n - 1,
                size == total_size(levels, id as int),
                size <= id * usize::MAX,
            decreases n - 1 - id,
        {
            assert(levels[id as int].1 == snapshot.levels@[id as int].1@);
            let len = snapshot.levels[id].1.len();
            proof {
                lemma_size_step(id as int, size as int, len as int);
            }
            size = size + len as u128;
            id = id + 1;
        }
        let bottom = snapshot.levels[n - 1].1.len() as u128;
        assert(levels[n - 1].1 == snapshot.levels@[n - 1].1@);
        let max_pct = self.options.max_size_amplification_percent as u128;
        assert(max_pct * bottom <= usize::MAX * usize::MAX) by (nonlinear_arith)
            requires
                max_pct <= usize::MAX,
                bottom <= usize::MAX,
        ;
        proof {
            // the square of usize::MAX fits in u128
            lemma_size_step(0, 0, 0);
        }
        let space_amp = match size.checked_mul(100) {
            Some(scaled) => (size > 0 || bottom > 0) && scaled >= max_pct * bottom,
            None => true,
        };
        assert(space_amp == (size * 100 > u128::MAX || ((size > 0 || bottom > 0) && size * 100
            >= max_pct * bottom)));
        assert(size * 100 > u128::MAX ==> size > 0 && size * 100 >= max_pct * bottom)
            by (nonlinear_arith)
            requires
                max_pct * bottom <= usize::MAX * usize::MAX,
                usize::MAX * usize::MAX < u128::MAX,
        ;
        assert(space_amp == space_amp_triggered(levels, max_pct as int));
        if space_amp {
            return Some(
                TieredCompactionTask {
                    tiers: copy_tiers(&snapshot.levels, n),
                    bottom_tier_included: true,
                },
            );
        }
        let factor = 100 + self.options.size_ratio as u128;
        let mut prev_size: u128 = snapshot.levels[0].1.len() as u128;
        let mut i: usize = 1;
        assert(levels[0].1 == snapshot.levels@[0].1@);
        assert(total_size(levels, 1) == total_size(levels, 0) + levels[0].1.len());
        while i < n
            invariant
                n == snapshot.levels@.len(),
                levels == tiers_view(snapshot.levels@),
                0 < n,
                1 <= i <= n,
                prev_size == total_size(levels, i as int),
                prev_size <= i * usize::MAX,
                n >= self.options.num_tiers,
                !space_amp_triggered(levels, self.options.max_size_amplification_percent as int),
                factor == 100 + self.options.size_ratio,
                first_size_ratio_trigger(
                    levels,
                    self.options.size_ratio as int,
                    self.options.min_merge_width as int,
                    1,
                ) == first_size_ratio_trigger(
                    levels,
                    self.options.size_ratio as int,
                    self.options.min_merge_width as int,
                    i as int,
                ),
            decreases n - i,
        {
            let current_size = snapshot.levels[i].1.len() as u128;
            assert(levels[i as int].1 == snapshot.levels@[i as int].1@);
            proof {
                lemma_size_step(i as int, prev_size as int, current_size as int);
            }
            let outgrown = match factor.checked_mul(prev_size) {
                Some(limit) => current_size * 100 > limit,
                None => false,
            };
            assert(outgrown == (factor * prev_size <= u128::MAX && current_size * 100 > factor
                * prev_size));
            assert(outgrown == (levels[i as int].1.len() * 100 > (100 + self.options.size_ratio)
                * total_size(levels, i as int))) by (nonlinear_arith)
                requires
                    factor == 100 + self.options.size_ratio,
                    prev_size == total_size(levels, i as int),
                    current_size == levels[i as int].1.len(),
                    current_size <= usize::MAX,
                    outgrown == (factor * prev_size <= u128::MAX && current_size * 100 > factor
                        * prev_size),
            ;
            assert((outgrown && i >= self.options.min_merge_width) == size_ratio_triggered(
                levels,
                self.options.size_ratio as int,
                self.options.min_merge_width as int,
                i as int,
            ));
            if outgrown && i >= self.options.min_merge_width {
                return Some(
                    TieredCompactionTask {
                        tiers: copy_tiers(&snapshot.levels, i),
                        bottom_tier_included: false,
                    },
                );
            }
            prev_size = prev_size + current_size;
            i = i + 1;
        }
        let max_merge = match self.options.max_merge_width {
            Some(w) => if w < n {
                w
            } else {
                n
            },
            None => n,
        };
        Some(
            TieredCompactionTask {
                tiers: copy_tiers(&snapshot.levels, max_merge),
                bottom_tier_included: max_merge >= n,
            },
        )
    }

    /// Folds the output of `task` into a new snapshot: the selected tiers leave, one
    /// tier keyed by the first output table takes their place, and the tables of the
    /// selected tiers are returned as removed.
    pub fn apply_compaction_result(
        &self,
        snapshot: &LsmStorageState,
        task: &TieredCompactionTask,
        output: &[usize],
    ) -> (r: (LsmStorageState, Vec<usize>))
        requires
            ids_distinct(tiers_view(snapshot.levels@)),
            forall|k: int|
                0 <= k < task.tiers@.len() ==> tiers_view(snapshot.levels@).contains(
                    tiers_view(task.tiers@)[k],
                ),
            output@.len() > 0 || snapshot.levels@.len() == 0,
        ensures
            ({
                let w = apply_walk(
                    tiers_view(snapshot.levels@),
                    tier_ids(tiers_view(task.tiers@)),
                    output@,
                );
                tiers_view(r.0.levels@) == w.0 && r.1@ == w.1
            }),
    {
        let ghost levels = tiers_view(snapshot.levels@);
        let ghost ids = tier_ids(tiers_view(task.tiers@));
        let mut tier_to_remove: HashSet<usize> = HashSet::new();
        let mut k: usize = 0;
        while k < task.tiers.len()
            invariant
                k <= task.tiers@.len(),
                tier_to_remove@ == tier_ids(tiers_view(task.tiers@).take(k as int)),
            decreases task.tiers@.len() - k,
        {
            let ghost before = tier_to_remove@;
            tier_to_remove.insert(task.tiers[k].0);
            proof {
                let tv = tiers_view(task.tiers@);
                assert forall|id: usize|
                    #[trigger] tier_ids(tv.take(k + 1)).contains(id)
                        == tier_to_remove@.contains(id) by {
                    if tier_ids(tv.take(k + 1)).contains(id) {
                        let j = choose|j: int| 0 <= j < k + 1 && #[trigger] tv.take(k + 1)[j].0 == id;
                        if j < k {
                            assert(tv.take(k as int)[j].0 == id);
                        }
                    }
                    if before.contains(id) {
                        let j = choose|j: int| 0 <= j < k && #[trigger] tv.take(k as int)[j].0 == id;
                        assert(tv.take(k + 1)[j].0 == id);
                    }
                    if id == task.tiers@[k as int].0 {
                        assert(tv.take(k + 1)[k as int].0 == id);
                    }
                }
                assert(tier_to_remove@ =~= tier_ids(tv.take(k + 1)));
            }
            k = k + 1;
        }
        assert(tiers_view(task.tiers@).take(task.tiers@.len() as int) =~= tiers_view(
            task.tiers@,
        ));
        let mut new_tier_added = false;
        let mut to_be_removed: Vec<usize> = Vec::new();
        let mut new_levels: Vec<Tier> = Vec::new();
        let n = snapshot.levels.len();
        let mut i: usize = 0;
        while i < n
            invariant
                n == snapshot.levels@.len(),
                levels == tiers_view(snapshot.levels@),
                i <= n,
                output@.len() > 0 || n == 0,
                ({
                    let w = apply_walk(levels.take(i as int), ids, output@);
                    &&& tiers_view(new_levels@) == w.0
                    &&& to_be_removed@ == w.1
                    &&& tier_to_remove@ == w.2
                    &&& new_tier_added == w.3
                }),
            decreases n - i,
        {
            let tier_id = snapshot.levels[i].0;
            assert(levels.take(i + 1).drop_last() =~= levels.take(i as int));
            assert(levels[i as int].1 == snapshot.levels@[i as int].1@);
            if tier_to_remove.remove(&tier_id) {
                append_ids(&mut to_be_removed, &snapshot.levels[i].1);
            } else {
                let tables = copy_ids(&snapshot.levels[i].1);
                new_levels.push((tier_id, tables));
                assert(tiers_view(new_levels@) =~= apply_walk(levels.take(i as int), ids, output@).0.push(
                    levels[i as int],
                ));
            }
            if tier_to_remove.is_empty() && !new_tier_added {
                new_tier_added = true;
                let tables = copy_ids_slice(output);
                new_levels.push((output[0], tables));
                assert(tiers_view(new_levels@) =~= apply_walk(levels.take(i + 1), ids, output@).0);
            }
            i = i + 1;
        }
        assert(levels.take(n as int) =~= levels);
        (LsmStorageState { levels: new_levels }, to_be_removed)
    }
}

} // verus!
