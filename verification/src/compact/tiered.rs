use crate::lsm_storage::{append_ids, id_set, levels_view, LsmStorageState};
use vstd::prelude::*;
use vstd::slice::slice_to_vec;

verus! {

#[derive(Debug)]
pub struct TieredCompactionTask {
    pub tiers: Vec<(usize, Vec<usize>)>,
    pub bottom_tier_included: bool,
}

#[derive(Debug, Clone)]
pub struct TieredCompactionOptions {
    pub num_tiers: usize,
    pub max_size_amplification_percent: usize,
    pub size_ratio: usize,
    pub min_merge_width: usize,
    pub max_merge_width: Option<usize>,
}

pub struct TieredCompactionController {
    options: TieredCompactionOptions,
}

/// The number of SSTs in the first `k` tiers.
pub open spec fn tiers_size(lv: Seq<(usize, Seq<usize>)>, k: int) -> int
    decreases k,
{
    if k <= 0 {
        0
    } else {
        tiers_size(lv, k - 1) + lv[k - 1].1.len()
    }
}

/// Space amplification: the tiers above the last one hold at least
/// `max_size_amplification_percent` percent of the SSTs of the last tier.
pub open spec fn space_amp_trigger(lv: Seq<(usize, Seq<usize>)>, o: TieredCompactionOptions) -> bool {
    let last = lv[lv.len() - 1].1.len();
    &&& last > 0
    &&& tiers_size(lv, lv.len() - 1) * 100 / (last as int) >= o.max_size_amplification_percent
}

/// Size ratio at tier `i`: the tiers before it are not empty, tier `i` is more
/// than `100 + size_ratio` percent of them, and at least `min_merge_width`
/// tiers come before it.
pub open spec fn size_ratio_trigger(lv: Seq<(usize, Seq<usize>)>, o: TieredCompactionOptions, i: int) -> bool {
    &&& tiers_size(lv, i) > 0
    &&& lv[i].1.len() * 100 > tiers_size(lv, i) * (100 + o.size_ratio)
    &&& i >= o.min_merge_width
}

/// The first tier from `i` on at which the size ratio trigger holds.
pub open spec fn first_size_ratio_trigger(lv: Seq<(usize, Seq<usize>)>, o: TieredCompactionOptions, i: int) -> Option<int>
    decreases lv.len() - i,
{
    if i < 1 || i >= lv.len() {
        None
    } else if size_ratio_trigger(lv, o, i) {
        Some(i)
    } else {
        first_size_ratio_trigger(lv, o, i + 1)
    }
}

/// How many tiers the tier count trigger merges.
pub open spec fn merge_width(lv: Seq<(usize, Seq<usize>)>, o: TieredCompactionOptions) -> int {
    let w = match o.max_merge_width {
        Some(w) => w as int,
        None => lv.len() as int,
    };
    if w < lv.len() { w } else { lv.len() as int }
}

/// The task that tiered compaction generates: `Some((number of leading tiers, bottom tier included))`.
pub open spec fn tiered_task(lv: Seq<(usize, Seq<usize>)>, o: TieredCompactionOptions) -> Option<(int, bool)> {
    if lv.len() < o.num_tiers {
        None
    } else if space_amp_trigger(lv, o) {
        Some((lv.len() as int, true))
    } else {
        match first_size_ratio_trigger(lv, o, 1) {
            Some(i) => Some((i, false)),
            None => Some((merge_width(lv, o), merge_width(lv, o) == lv.len())),
        }
    }
}

proof fn lemma_first_size_ratio_range(lv: Seq<(usize, Seq<usize>)>, o: TieredCompactionOptions, i: int)
    ensures
        first_size_ratio_trigger(lv, o, i) matches Some(k) ==> 1 <= k < lv.len(),
    decreases lv.len() - i,
{
    if 1 <= i < lv.len() && !size_ratio_trigger(lv, o, i) {
        lemma_first_size_ratio_range(lv, o, i + 1);
    }
}

/// The tiers a task takes are leading tiers of the state.
pub proof fn lemma_tiered_task_range(lv: Seq<(usize, Seq<usize>)>, o: TieredCompactionOptions)
    ensures
        tiered_task(lv, o) matches Some((k, _)) ==> 0 <= k <= lv.len(),
{
    lemma_first_size_ratio_range(lv, o, 1);
}

proof fn lemma_first_size_ratio_found(lv: Seq<(usize, Seq<usize>)>, o: TieredCompactionOptions, i: int, k: int)
    requires
        1 <= i <= k < lv.len(),
        size_ratio_trigger(lv, o, k),
        forall|j: int| i <= j < k ==> !size_ratio_trigger(lv, o, j),
    ensures
        first_size_ratio_trigger(lv, o, i) == Some(k),
    decreases k - i,
{
    if i < k {
        lemma_first_size_ratio_found(lv, o, i + 1, k);
    }
}

proof fn lemma_first_size_ratio_none(lv: Seq<(usize, Seq<usize>)>, o: TieredCompactionOptions, i: int)
    requires
        1 <= i,
        forall|j: int| i <= j < lv.len() ==> !size_ratio_trigger(lv, o, j),
    ensures
        first_size_ratio_trigger(lv, o, i) == None::<int>,
    decreases lv.len() - i,
{
    if i < lv.len() {
        lemma_first_size_ratio_none(lv, o, i + 1);
    }
}

/// Copies the first `k` tiers.
fn copy_tiers(levels: &Vec<(usize, Vec<usize>)>, k: usize) -> (r: Vec<(usize, Vec<usize>)>)
    requires
        k <= levels@.len(),
    ensures
        levels_view(r@) == levels_view(levels@).take(k as int),
{
    let mut out: Vec<(usize, Vec<usize>)> = Vec::new();
    let mut i: usize = 0;
    while i < k
        invariant
            k <= levels@.len(),
            i <= k,
            out@.len() == i,
            levels_view(out@) =~= levels_view(levels@).take(i as int),
        decreases k - i,
    {
        let ids = slice_to_vec(levels[i].1.as_slice());
        let ghost before = out@;
        out.push((levels[i].0, ids));
        proof {
            assert forall|j: int| 0 <= j <= i implies #[trigger] levels_view(out@)[j] == levels_view(levels@)[j] by {
                if j < i {
                    assert(levels_view(before)[j] == levels_view(levels@).take(i as int)[j]);
                    assert(out@[j] == before[j]);
                }
            }
            assert(levels_view(out@) =~= levels_view(levels@).take(i + 1));
        }
        i = i + 1;
    }
    out
}

/// All SST ids of the tiers, tier by tier.
pub open spec fn all_tier_ids(lv: Seq<(usize, Seq<usize>)>) -> Seq<usize>
    decreases lv.len(),
{
    if lv.len() == 0 {
        Seq::empty()
    } else {
        all_tier_ids(lv.drop_last()) + lv.last().1
    }
}

/// The number of SSTs in the first `i` tiers, counted as the length of their ids.
pub open spec fn prefix_count(lv: Seq<(usize, Seq<usize>)>, i: int) -> int {
    all_tier_ids(lv.take(i)).len() as int
}

proof fn lemma_prefix_count(lv: Seq<(usize, Seq<usize>)>, i: int)
    requires
        0 <= i <= lv.len(),
    ensures
        tiers_size(lv, i) == prefix_count(lv, i),
    decreases i,
{
    if i > 0 {
        lemma_prefix_count(lv, i - 1);
        assert(lv.take(i).drop_last() =~= lv.take(i - 1));
        assert(lv.take(i).last() == lv[i - 1]);
    } else {
        assert(lv.take(0) =~= Seq::<(usize, Seq<usize>)>::empty());
    }
}

/// The size ratio trigger at tier `i`, over SST counts: the tiers before `i`
/// hold SSTs, tier `i` holds more than `100 + size_ratio` percent of all of them
/// together, and at least `min_merge_width` tiers come before it.
pub open spec fn ratio_fires(lv: Seq<(usize, Seq<usize>)>, o: TieredCompactionOptions, i: int) -> bool {
    &&& prefix_count(lv, i) > 0
    &&& lv[i].1.len() * 100 > prefix_count(lv, i) * (100 + o.size_ratio)
    &&& i >= o.min_merge_width
}

/// What tiered compaction picks, in terms of the tiers' SST counts. Below
/// `num_tiers` tiers, nothing. When the tiers above the last hold at least
/// `max_size_amplification_percent` percent of the last tier's SSTs, all tiers,
/// with the bottom one. Otherwise, at the first tier `i` at which a tier holds
/// more than `100 + size_ratio` percent of all the tiers before it together (with
/// at least `min_merge_width` before it), the tiers before `i`, without the bottom
/// one; and when no tier does, the first `max_merge_width` tiers (all, when
/// unset or larger), with the bottom one exactly when that is all of them.
pub proof fn lemma_tiered_task_law(lv: Seq<(usize, Seq<usize>)>, o: TieredCompactionOptions)
    requires
        lv.len() > 0,
    ensures
        lv.len() < o.num_tiers ==> tiered_task(lv, o) is None,
        lv.len() >= o.num_tiers && lv[lv.len() - 1].1.len() > 0
            && prefix_count(lv, lv.len() - 1) * 100 / (lv[lv.len() - 1].1.len() as int) >= o.max_size_amplification_percent
            ==> tiered_task(lv, o) == Some((lv.len() as int, true)),
        lv.len() >= o.num_tiers && !(lv[lv.len() - 1].1.len() > 0
            && prefix_count(lv, lv.len() - 1) * 100 / (lv[lv.len() - 1].1.len() as int) >= o.max_size_amplification_percent)
            ==> {
            &&& forall|i: int|
                1 <= i < lv.len() && #[trigger] ratio_fires(lv, o, i) && (forall|j: int| 1 <= j < i ==> !ratio_fires(lv, o, j))
                    ==> tiered_task(lv, o) == Some((i, false))
            &&& (forall|i: int| 1 <= i < lv.len() ==> !ratio_fires(lv, o, i)) ==> {
                let w = match o.max_merge_width {
                    Some(w) => if (w as int) < lv.len() { w as int } else { lv.len() as int },
                    None => lv.len() as int,
                };
                tiered_task(lv, o) == Some((w, w == lv.len()))
            }
        },
{
    let n = lv.len() as int;
    lemma_prefix_count(lv, n - 1);
    assert forall|i: int| 1 <= i < n implies (size_ratio_trigger(lv, o, i) <==> #[trigger] ratio_fires(lv, o, i)) by {
        lemma_prefix_count(lv, i);
    }
    if n >= o.num_tiers && !space_amp_trigger(lv, o) {
        assert forall|i: int|
            1 <= i < n && #[trigger] ratio_fires(lv, o, i) && (forall|j: int| 1 <= j < i ==> !ratio_fires(lv, o, j))
            implies tiered_task(lv, o) == Some((i, false)) by {
            lemma_prefix_count(lv, i);
            assert forall|j: int| 1 <= j < i implies !size_ratio_trigger(lv, o, j) by {
                lemma_prefix_count(lv, j);
                assert(!ratio_fires(lv, o, j));
            }
            lemma_first_size_ratio_found(lv, o, 1, i);
        }
        if forall|i: int| 1 <= i < n ==> !ratio_fires(lv, o, i) {
            assert forall|j: int| 1 <= j < n implies !size_ratio_trigger(lv, o, j) by {
                lemma_prefix_count(lv, j);
                assert(!ratio_fires(lv, o, j));
            }
            lemma_first_size_ratio_none(lv, o, 1);
        }
    }
}

/// The tiers whose id is not among `ids`, in order.
pub open spec fn tiers_without(lv: Seq<(usize, Seq<usize>)>, ids: Seq<usize>) -> Seq<(usize, Seq<usize>)> {
    lv.filter(|t: (usize, Seq<usize>)| !ids.contains(t.0))
}

/// The number of leading tiers whose id is larger than `bound`.
pub open spec fn leading_newer(lv: Seq<(usize, Seq<usize>)>, bound: int) -> int
    decreases lv.len(),
{
    if lv.len() == 0 || lv[0].0 <= bound {
        0
    } else {
        1 + leading_newer(lv.drop_first(), bound)
    }
}

/// The largest tier id among the tiers, 0 when there are none.
pub open spec fn max_tier_id(lv: Seq<(usize, Seq<usize>)>) -> int
    decreases lv.len(),
{
    if lv.len() == 0 {
        0
    } else {
        let m = max_tier_id(lv.drop_last());
        if lv.last().0 > m { lv.last().0 as int } else { m }
    }
}

/// The tiers after applying a compaction: the compacted tiers (by id) leave, and
/// the output becomes a tier whose id is its first SST id, at the bottom when
/// the bottom tier was compacted, else after the tiers newer than every input.
pub open spec fn tiered_apply_levels(
    lv: Seq<(usize, Seq<usize>)>,
    tiers: Seq<(usize, Seq<usize>)>,
    bottom_tier_included: bool,
    output: Seq<usize>,
) -> Seq<(usize, Seq<usize>)> {
    let kept = tiers_without(lv, tiers.map_values(|t: (usize, Seq<usize>)| t.0));
    if output.len() == 0 {
        kept
    } else if bottom_tier_included {
        kept.push((output[0], output))
    } else {
        kept.insert(leading_newer(kept, max_tier_id(tiers)), (output[0], output))
    }
}


/// The tier ids of the tiers.
pub open spec fn tier_ids(lv: Seq<(usize, Seq<usize>)>) -> Seq<usize> {
    lv.map_values(|t: (usize, Seq<usize>)| t.0)
}

fn collect_tier_ids(tiers: &Vec<(usize, Vec<usize>)>) -> (r: Vec<usize>)
    ensures
        r@ == tier_ids(levels_view(tiers@)),
{
    let mut out: Vec<usize> = Vec::new();
    let mut i: usize = 0;
    while i < tiers.len()
        invariant
            i <= tiers@.len(),
            out@ =~= tier_ids(levels_view(tiers@)).take(i as int),
        decreases tiers@.len() - i,
    {
        out.push(tiers[i].0);
        i = i + 1;
    }
    out
}

fn collect_all_ids(tiers: &Vec<(usize, Vec<usize>)>) -> (r: Vec<usize>)
    ensures
        r@ == all_tier_ids(levels_view(tiers@)),
{
    let ghost lv = levels_view(tiers@);
    let mut out: Vec<usize> = Vec::new();
    let mut i: usize = 0;
    while i < tiers.len()
        invariant
            lv == levels_view(tiers@),
            i <= tiers@.len(),
            out@ == all_tier_ids(lv.take(i as int)),
        decreases tiers@.len() - i,
    {
        proof {
            assert(lv.take(i + 1).drop_last() =~= lv.take(i as int));
            assert(lv[i as int].1 == tiers@[i as int].1@);
        }
        append_ids(&mut out, tiers[i].1.as_slice());
        i = i + 1;
    }
    proof {
        assert(lv.take(tiers@.len() as int) =~= lv);
    }
    out
}

fn max_input_tier_id(tiers: &Vec<(usize, Vec<usize>)>) -> (r: usize)
    ensures
        r == max_tier_id(levels_view(tiers@)),
{
    let ghost lv = levels_view(tiers@);
    let mut m: usize = 0;
    let mut i: usize = 0;
    while i < tiers.len()
        invariant
            lv == levels_view(tiers@),
            i <= tiers@.len(),
            m == max_tier_id(lv.take(i as int)),
        decreases tiers@.len() - i,
    {
        proof {
            assert(lv.take(i + 1).drop_last() =~= lv.take(i as int));
        }
        if tiers[i].0 > m {
            m = tiers[i].0;
        }
        i = i + 1;
    }
    proof {
        assert(lv.take(tiers@.len() as int) =~= lv);
    }
    m
}

fn retain_tiers_not_in(levels: &mut Vec<(usize, Vec<usize>)>, ids: &[usize])
    ensures
        levels_view(final(levels)@) == tiers_without(levels_view(old(levels)@), ids@),
{
    let ghost lv = levels_view(levels@);
    let drop_set = id_set(ids);
    let mut kept: Vec<(usize, Vec<usize>)> = Vec::new();
    let mut i: usize = 0;
    while i < levels.len()
        invariant
            forall|x: usize| #[trigger] drop_set@.contains(x) <==> ids@.contains(x),
            lv == levels_view(levels@),
            lv == levels_view(old(levels)@),
            i <= levels@.len(),
            levels_view(kept@) == tiers_without(lv.take(i as int), ids@),
        decreases levels@.len() - i,
    {
        proof {
            reveal(Seq::filter);
            let t = lv.take(i + 1);
            assert(t.drop_last() =~= lv.take(i as int));
            assert(t.last() == lv[i as int]);
        }
        if !drop_set.contains(&levels[i].0) {
            let copy = slice_to_vec(levels[i].1.as_slice());
            let ghost before = kept@;
            kept.push((levels[i].0, copy));
            proof {
                assert(levels_view(kept@) =~= levels_view(before).push(lv[i as int]));
            }
        }
        i = i + 1;
    }
    proof {
        assert(lv.take(levels@.len() as int) =~= lv);
    }
    *levels = kept;
}

proof fn lemma_leading_newer_skip(lv: Seq<(usize, Seq<usize>)>, b: int, p: int)
    requires
        0 <= p < lv.len(),
        lv[p].0 > b,
    ensures
        leading_newer(lv.skip(p), b) == 1 + leading_newer(lv.skip(p + 1), b),
{
    assert(lv.skip(p).drop_first() =~= lv.skip(p + 1));
}

fn leading_newer_count(levels: &Vec<(usize, Vec<usize>)>, bound: usize) -> (r: usize)
    ensures
        r == leading_newer(levels_view(levels@), bound as int),
        r <= levels@.len(),
{
    let ghost lv = levels_view(levels@);
    let mut pos: usize = 0;
    proof {
        assert(lv.skip(0) =~= lv);
    }
    while pos < levels.len() && levels[pos].0 > bound
        invariant
            lv == levels_view(levels@),
            pos <= levels@.len(),
            leading_newer(lv, bound as int) == pos + leading_newer(lv.skip(pos as int), bound as int),
        decreases levels@.len() - pos,
    {
        proof {
            lemma_leading_newer_skip(lv, bound as int, pos as int);
        }
        pos = pos + 1;
    }
    pos
}

/// Tiered compaction can look at the last tier: there is one, or no tier is needed.
pub open spec fn tiered_generate_ok(o: TieredCompactionOptions, s: LsmStorageState) -> bool {
    s.levels@.len() > 0 || o.num_tiers > 0
}

/// The task tiered compaction generates on a snapshot.
pub open spec fn tiered_task_spec(o: TieredCompactionOptions, s: LsmStorageState, r: Option<TieredCompactionTask>) -> bool {
    match tiered_task(s.levels_spec(), o) {
        Some((k, bottom)) => {
            &&& r is Some
            &&& levels_view(r->0.tiers@) == s.levels_spec().take(k)
            &&& r->0.bottom_tier_included == bottom
        },
        None => r is None,
    }
}

/// The state and files to remove after applying a tiered compaction.
pub open spec fn tiered_apply_spec(
    snapshot: LsmStorageState,
    task: TieredCompactionTask,
    output: Seq<usize>,
    r: (LsmStorageState, Vec<usize>),
) -> bool {
    &&& r.1@ == all_tier_ids(levels_view(task.tiers@))
    &&& r.0.sstables@ == snapshot.sstables@
    &&& r.0.imm_memtables@ == snapshot.imm_memtables@
    &&& r.0.l0_sstables@ == snapshot.l0_sstables@
    &&& r.0.levels_spec() == tiered_apply_levels(snapshot.levels_spec(), levels_view(task.tiers@), task.bottom_tier_included, output)
}

impl TieredCompactionController {
    pub closed spec fn options_spec(&self) -> TieredCompactionOptions {
        self.options
    }

    /// The options the controller was made with.
    pub fn options(&self) -> (r: &TieredCompactionOptions)
        ensures
            *r == self.options_spec(),
    {
        &self.options
    }

    pub fn new(options: TieredCompactionOptions) -> (c: Self)
        ensures
            c.options_spec() == options,
    {
        Self { options }
    }

    /// Generates a compaction task once there are at least `num_tiers` tiers:
    /// all tiers when the space amplification is too large, else the tiers before
    /// the first tier that breaks the size ratio, else the first
    /// `max_merge_width` tiers.
    pub fn generate_compaction_task(&self, snapshot: &LsmStorageState) -> (r: Option<TieredCompactionTask>)
        requires
            tiered_generate_ok(self.options_spec(), *snapshot),
        ensures
            tiered_task_spec(self.options_spec(), *snapshot, r),
    {
        let ghost lv = snapshot.levels_spec();
        let ghost o = self.options_spec();
        if snapshot.levels.len() < self.options.num_tiers {
            return None;
        }
        let level_cnt = snapshot.levels.len();
        assert(level_cnt == lv.len());
        // Trigger 1: space amplification ratio.
        let mut all_but_last: u128 = 0;
        let mut i: usize = 0;
        while i < level_cnt - 1
            invariant
                lv == snapshot.levels_spec(),
                level_cnt == lv.len(),
                level_cnt >= 1,
                i <= level_cnt - 1,
                all_but_last == tiers_size(lv, i as int),
                all_but_last <= i * 0xffff_ffff_ffff_ffffu128,
            decreases level_cnt - 1 - i,
        {
            proof {
                assert((i + 1) * 0xffff_ffff_ffff_ffffu128 <= 0xffff_ffff_ffff_ffff * 0xffff_ffff_ffff_ffffu128) by (nonlinear_arith)
                    requires i + 1 <= 0xffff_ffff_ffff_ffff;
                assert(lv[i as int].1 == snapshot.levels@[i as int].1@);
            }
            all_but_last = all_but_last + snapshot.levels[i].1.len() as u128;
            i = i + 1;
        }
        let last_level_size = snapshot.levels[level_cnt - 1].1.len();
        proof {
            assert(lv[level_cnt - 1].1 == snapshot.levels@[level_cnt - 1].1@);
        }
        if last_level_size > 0 {
            let amp = self.options.max_size_amplification_percent;
            assert((amp as u128) * (last_level_size as u128) <= 0xffff_ffff_ffff_ffff * 0xffff_ffff_ffff_ffffu128) by (nonlinear_arith)
                requires amp <= 0xffff_ffff_ffff_ffffu128, last_level_size <= 0xffff_ffff_ffff_ffffu128;
            let rhs: u128 = (amp as u128) * (last_level_size as u128);
            let fires = match all_but_last.checked_mul(100) {
                Some(lhs) => lhs >= rhs,
                None => true,
            };
            proof {
                let a = all_but_last as int;
                let l = last_level_size as int;
                assert((a * 100) / l >= amp <==> a * 100 >= amp * l) by (nonlinear_arith)
                    requires l > 0, amp >= 0, a >= 0;
                assert(amp * l <= 0xffff_ffff_ffff_ffff * 0xffff_ffff_ffff_ffff) by (nonlinear_arith)
                    requires 0 <= amp <= 0xffff_ffff_ffff_ffff, 0 <= l <= 0xffff_ffff_ffff_ffff;
            }
            if fires {
                return Some(TieredCompactionTask { tiers: copy_tiers(&snapshot.levels, level_cnt), bottom_tier_included: true });
            }
        }
        // Trigger 2: size ratio.
        let ratio_limit: u128 = 100 + self.options.size_ratio as u128;
        let mut prev_sum: u128 = snapshot.levels[0].1.len() as u128;
        proof {
            assert(lv[0].1 == snapshot.levels@[0].1@);
            assert(tiers_size(lv, 0) == 0);
            assert(tiers_size(lv, 1) == lv[0].1.len());
        }
        let mut i: usize = 1;
        while i < level_cnt
            invariant
                lv == snapshot.levels_spec(),
                o == self.options_spec(),
                !(lv.len() < o.num_tiers),
                !space_amp_trigger(lv, o),
                level_cnt == lv.len(),
                1 <= i <= level_cnt,
                prev_sum == tiers_size(lv, i as int),
                ratio_limit == 100 + o.size_ratio,
                prev_sum <= i * 0xffff_ffff_ffff_ffffu128,
                forall|j: int| 1 <= j < i ==> !size_ratio_trigger(lv, o, j),
            decreases level_cnt - i,
        {
            let cur_size = snapshot.levels[i].1.len();
            proof {
                assert(lv[i as int].1 == snapshot.levels@[i as int].1@);
                assert((i + 1) * 0xffff_ffff_ffff_ffffu128 <= 0xffff_ffff_ffff_ffff * 0xffff_ffff_ffff_ffffu128) by (nonlinear_arith)
                    requires i + 1 <= 0xffff_ffff_ffff_ffff;
            }
            let exceeds = match prev_sum.checked_mul(ratio_limit) {
                Some(rhs) => (cur_size as u128) * 100 > rhs,
                None => false,
            };
            if prev_sum > 0 && exceeds && i >= self.options.min_merge_width {
                proof {
                    lemma_first_size_ratio_found(lv, o, 1, i as int);
                }
                return Some(TieredCompactionTask { tiers: copy_tiers(&snapshot.levels, i), bottom_tier_included: false });
            }
            prev_sum = prev_sum + cur_size as u128;
            i = i + 1;
        }
        proof {
            lemma_first_size_ratio_none(lv, o, 1);
        }
        // Trigger 3: number of tiers.
        let merge_width = match self.options.max_merge_width {
            Some(w) => if w < level_cnt { w } else { level_cnt },
            None => level_cnt,
        };
        Some(TieredCompactionTask {
            tiers: copy_tiers(&snapshot.levels, merge_width),
            bottom_tier_included: merge_width == level_cnt,
        })
    }
    /// Applies the compaction result: the compacted tiers leave (by tier id, so
    /// tiers flushed meanwhile stay), the output becomes a tier, and the inputs
    /// are the files to remove. The SST map and level 0 are unchanged.
    pub fn apply_compaction_result(
        &self,
        snapshot: &LsmStorageState,
        task: &TieredCompactionTask,
        output: &[usize],
    ) -> (r: (LsmStorageState, Vec<usize>))
        ensures
            tiered_apply_spec(*snapshot, *task, output@, r),
    {
        let mut new_state = snapshot.clone();
        let files_to_remove = collect_all_ids(&task.tiers);
        let compacted_tier_ids = collect_tier_ids(&task.tiers);
        retain_tiers_not_in(&mut new_state.levels, compacted_tier_ids.as_slice());
        let ghost kept = new_state.levels_spec();
        if output.len() > 0 {
            let new_tier_id = output[0];
            if task.bottom_tier_included {
                let ghost before = new_state.levels@;
                new_state.levels.push((new_tier_id, slice_to_vec(output)));
                proof {
                    assert(new_state.levels_spec() =~= levels_view(before).push((output@[0], output@)));
                }
            } else {
                let max_input_tier_id = max_input_tier_id(&task.tiers);
                let insert_pos = leading_newer_count(&new_state.levels, max_input_tier_id);
                let ghost before = new_state.levels@;
                new_state.levels.insert(insert_pos, (new_tier_id, slice_to_vec(output)));
                proof {
                    assert(new_state.levels_spec() =~= levels_view(before).insert(insert_pos as int, (output@[0], output@)));
                }
            }
        }
        (new_state, files_to_remove)
    }
}

} // verus!
