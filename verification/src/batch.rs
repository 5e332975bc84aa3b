//! Turning one round of sampling into the batch that is sent: the samples that
//! arrived are put in order, formatted, and stripped of repeated identifiers.

use vstd::prelude::*;
use vstd::set_lib::{lemma_int_range, lemma_len_subset, lemma_subset_equality, set_int_range};
use vstd::utf8::encode_utf8;
use crate::api::{ContainerStats, ContainerStatsView, MetricSample, MetricSampleView, SortKey, formatted};
use crate::format::{counter_or_zero, cpu_hundredths, cpu_share};
use crate::text::{
    bytes_before, lemma_lex_before_asymmetric, lemma_lex_before_negatively_transitive, lex_before,
};

verus! {

/// The memory by which a sample is ranked: what it reports, or zero.
pub open spec fn memory_rank(sample: MetricSampleView) -> int {
    match sample.memory_bytes {
        Some(bytes) => bytes as int,
        None => 0,
    }
}

/// The processor usage by which a sample is ranked: its usage in hundredths of
/// a percent, or -1 where the usage is undefined.
pub open spec fn cpu_rank(sample: MetricSampleView) -> int {
    match cpu_share(
        sample.cpu_counter_now - sample.cpu_counter_prev,
        counter_or_zero(sample.system_counter_now) - counter_or_zero(sample.system_counter_prev),
    ) {
        Some(hundredths) => hundredths as int,
        None => -1,
    }
}

/// Whether `a` goes strictly before `b` under a sort key: by name, the name
/// whose bytes come first; by memory or by processor usage, the larger value.
pub open spec fn precedes(a: MetricSampleView, b: MetricSampleView, key: SortKey) -> bool {
    match key {
        SortKey::Name => lex_before(encode_utf8(a.display_name), encode_utf8(b.display_name)),
        SortKey::Memory => memory_rank(a) > memory_rank(b),
        SortKey::Cpu => cpu_rank(a) > cpu_rank(b),
    }
}

/// Of two samples at most one goes before the other.
pub proof fn lemma_precedes_asymmetric(a: MetricSampleView, b: MetricSampleView, key: SortKey)
    ensures
        !(precedes(a, b, key) && precedes(b, a, key)),
{
    lemma_lex_before_asymmetric(encode_utf8(a.display_name), encode_utf8(b.display_name));
}

/// If `a` does not go before `b`, and `b` does not go before `c`, then `a` does
/// not go before `c`.
pub proof fn lemma_precedes_negatively_transitive(
    a: MetricSampleView,
    b: MetricSampleView,
    c: MetricSampleView,
    key: SortKey,
)
    requires
        !precedes(a, b, key),
        !precedes(b, c, key),
    ensures
        !precedes(a, c, key),
{
    if key == SortKey::Name {
        lemma_lex_before_negatively_transitive(
            encode_utf8(a.display_name),
            encode_utf8(b.display_name),
            encode_utf8(c.display_name),
        );
    }
}

/// Decides whether `a` goes strictly before `b` under a sort key.
pub fn ranks_before(a: &MetricSample, b: &MetricSample, key: SortKey) -> (before: bool)
    ensures
        before == precedes(a@, b@, key),
{
    match key {
        SortKey::Name => bytes_before(
            a.display_name.as_str().as_bytes(),
            b.display_name.as_str().as_bytes(),
        ),
        SortKey::Memory => {
            let left: u64 = match a.memory_bytes {
                Some(bytes) => bytes,
                None => 0,
            };
            let right: u64 = match b.memory_bytes {
                Some(bytes) => bytes,
                None => 0,
            };
            left > right
        },
        SortKey::Cpu => {
            let left = cpu_hundredths(
                a.cpu_counter_now,
                a.cpu_counter_prev,
                a.system_counter_now,
                a.system_counter_prev,
            );
            let right = cpu_hundredths(
                b.cpu_counter_now,
                b.cpu_counter_prev,
                b.system_counter_now,
                b.system_counter_prev,
            );
            match (left, right) {
                (Some(l), Some(r)) => l > r,
                (Some(_), None) => true,
                (None, _) => false,
            }
        },
    }
}

/// Whether `out` is `inp` in the order of a sort key, `origin` giving for each
/// place of `out` the place in `inp` that its sample came from: every sample of
/// `inp` stands in `out` exactly once, no sample stands behind one that it
/// goes before, and samples that the key does not tell apart keep the order
/// they had in `inp`.
pub open spec fn is_stable_sort(
    out: Seq<MetricSampleView>,
    inp: Seq<MetricSampleView>,
    key: SortKey,
    origin: Seq<int>,
) -> bool {
    &&& out.len() == inp.len()
    &&& origin.len() == inp.len()
    &&& forall|k: int|
        0 <= k < out.len() ==> 0 <= #[trigger] origin[k] < inp.len() && out[k] == inp[origin[k]]
    &&& forall|i: int, j: int|
        0 <= i < j < origin.len() ==> #[trigger] origin[i] != #[trigger] origin[j]
    &&& forall|i: int, j: int|
        0 <= i < j < out.len() ==> !precedes(#[trigger] out[j], #[trigger] out[i], key)
    &&& forall|i: int, j: int|
        0 <= i < j < out.len() && !precedes(out[i], out[j], key) ==> #[trigger] origin[i]
            < #[trigger] origin[j]
}

/// Whether `out` is the stable sort of `inp` under a sort key.
pub open spec fn stably_sorted(
    out: Seq<MetricSampleView>,
    inp: Seq<MetricSampleView>,
    key: SortKey,
) -> bool {
    exists|origin: Seq<int>| is_stable_sort(out, inp, key, origin)
}

/// Each place of the input is the origin of some place of its stable sort.
proof fn lemma_origin_onto(origin: Seq<int>, n: int, v: int)
    requires
        origin.len() == n,
        forall|k: int| 0 <= k < n ==> 0 <= #[trigger] origin[k] < n,
        forall|i: int, j: int| 0 <= i < j < n ==> #[trigger] origin[i] != #[trigger] origin[j],
        0 <= v < n,
    ensures
        exists|p: int| 0 <= p < n && origin[p] == v,
{
    // The origins are `n` different numbers below `n`: they are all of them.
    assert(origin.no_duplicates());
    origin.unique_seq_to_set();
    lemma_int_range(0, n);
    assert(origin.to_set().subset_of(set_int_range(0, n)));
    lemma_len_subset(origin.to_set(), set_int_range(0, n));
    lemma_subset_equality(origin.to_set(), set_int_range(0, n));
    assert(origin.to_set().contains(v));
}

/// Two stable sorts of one input take each place from the same origin, from
/// the place `p` on.
proof fn lemma_origins_agree_from(
    a: Seq<MetricSampleView>,
    b: Seq<MetricSampleView>,
    inp: Seq<MetricSampleView>,
    key: SortKey,
    origin_a: Seq<int>,
    origin_b: Seq<int>,
    p: int,
)
    requires
        is_stable_sort(a, inp, key, origin_a),
        is_stable_sort(b, inp, key, origin_b),
        0 <= p <= inp.len(),
    ensures
        forall|q: int| p <= q < inp.len() ==> origin_a[q] == origin_b[q],
    decreases inp.len() - p,
{
    if p < inp.len() {
        lemma_origins_agree_from(a, b, inp, key, origin_a, origin_b, p + 1);
        let n = inp.len() as int;
        let x = origin_a[p];
        let y = origin_b[p];
        if x != y {
            lemma_origin_onto(origin_b, n, x);
            let pb = choose|pb: int| 0 <= pb < n && origin_b[pb] == x;
            lemma_origin_onto(origin_a, n, y);
            let pa = choose|pa: int| 0 <= pa < n && origin_a[pa] == y;
            // Behind `p` the two sorts agree, so each of `x` and `y` stands
            // before `p` in the sort that does not have it at `p`.
            assert(pb < p && pa < p);
            // Then `b` has the sample from `x` before the sample from `y`, and
            // `a` has them the other way round, which no stable sort allows.
            assert(b[pb] == inp[x] && b[p] == inp[y]);
            assert(a[pa] == inp[y] && a[p] == inp[x]);
        }
    }
}

/// A sort key determines the stable sort of a batch: two stable sorts of one
/// input are the same sequence.
pub proof fn lemma_stable_sort_unique(
    a: Seq<MetricSampleView>,
    b: Seq<MetricSampleView>,
    inp: Seq<MetricSampleView>,
    key: SortKey,
)
    requires
        stably_sorted(a, inp, key),
        stably_sorted(b, inp, key),
    ensures
        a == b,
{
    let origin_a = choose|origin: Seq<int>| is_stable_sort(a, inp, key, origin);
    let origin_b = choose|origin: Seq<int>| is_stable_sort(b, inp, key, origin);
    lemma_origins_agree_from(a, b, inp, key, origin_a, origin_b, 0);
    assert forall|k: int| 0 <= k < a.len() implies a[k] == b[k] by {
        assert(a[k] == inp[origin_a[k]]);
        assert(b[k] == inp[origin_b[k]]);
    }
}

/// Puts samples in the order of a sort key. The sort is stable: samples that
/// the key does not tell apart stay in the order in which they came.
pub fn sort_samples(samples: Vec<MetricSample>, key: SortKey) -> (sorted: Vec<MetricSample>)
    ensures
        stably_sorted(sorted.deep_view(), samples.deep_view(), key),
{
    let ghost inp = samples.deep_view();
    let mut rest = samples;
    let mut out: Vec<MetricSample> = Vec::new();
    let ghost mut origin: Seq<int> = Seq::empty();
    while rest.len() > 0
        invariant
            rest.deep_view() == inp.take(rest.len() as int),
            rest.len() <= inp.len(),
            out.len() == inp.len() - rest.len(),
            origin.len() == out.len(),
            forall|k: int|
                0 <= k < out.len() ==> rest.len() <= #[trigger] origin[k] < inp.len()
                    && out.deep_view()[k] == inp[origin[k]],
            forall|i: int, j: int|
                0 <= i < j < origin.len() ==> #[trigger] origin[i] != #[trigger] origin[j],
            forall|i: int, j: int|
                0 <= i < j < out.len() ==> !precedes(
                    #[trigger] out.deep_view()[j],
                    #[trigger] out.deep_view()[i],
                    key,
                ),
            forall|i: int, j: int|
                0 <= i < j < out.len() && !precedes(out.deep_view()[i], out.deep_view()[j], key)
                    ==> #[trigger] origin[i] < #[trigger] origin[j],
        decreases rest.len(),
    {
        let ghost before = out.deep_view();
        let ghost old_origin = origin;
        let ghost r = rest.len() - 1;
        let x = rest.pop().unwrap();
        assert(x@ == inp[r]) by {
            assert(inp.take(r + 1)[r] == inp[r]);
        }
        let mut p: usize = 0;
        while p < out.len() && ranks_before(&out[p], &x, key)
            invariant
                p <= out.len(),
                out.deep_view() == before,
                forall|k: int| 0 <= k < p ==> precedes(#[trigger] before[k], x@, key),
            decreases out.len() - p,
        {
            p += 1;
        }
        assert forall|k: int| p <= k < before.len() implies !precedes(
            #[trigger] before[k],
            x@,
            key,
        ) by {
            if k > p {
                lemma_precedes_negatively_transitive(before[k], before[p as int], x@, key);
            }
        }
        assert forall|k: int| 0 <= k < p implies !precedes(x@, #[trigger] before[k], key) by {
            lemma_precedes_asymmetric(x@, before[k], key);
        }
        out.insert(p, x);
        proof {
            origin = old_origin.insert(p as int, r);
            assert(out.deep_view() =~= before.insert(p as int, x@));
        }
    }
    assert(is_stable_sort(out.deep_view(), inp, key, origin));
    out
}

/// The samples among the outcomes of one round of sampling, in their order. A
/// source whose sample did not arrive contributes none.
pub open spec fn present(outcomes: Seq<Option<MetricSampleView>>) -> Seq<MetricSampleView>
    decreases outcomes.len(),
{
    if outcomes.len() == 0 {
        Seq::empty()
    } else {
        let earlier = present(outcomes.drop_last());
        match outcomes.last() {
            Some(sample) => earlier.push(sample),
            None => earlier,
        }
    }
}

/// There are no more samples than outcomes.
pub proof fn lemma_present_len(outcomes: Seq<Option<MetricSampleView>>)
    ensures
        present(outcomes).len() <= outcomes.len(),
    decreases outcomes.len(),
{
    if outcomes.len() > 0 {
        lemma_present_len(outcomes.drop_last());
    }
}

/// Joins one round of sampling: keeps the samples that arrived, in the order
/// of their sources, and passes over the sources that gave none.
pub fn collect_samples(outcomes: Vec<Option<MetricSample>>) -> (samples: Vec<MetricSample>)
    ensures
        samples.deep_view() == present(outcomes.deep_view()),
        samples.len() <= outcomes.len(),
{
    let ghost inp = outcomes.deep_view();
    let mut samples: Vec<MetricSample> = Vec::new();
    for outcome in it: outcomes
        invariant
            it.seq().len() == inp.len(),
            forall|k: int| 0 <= k < inp.len() ==> #[trigger] it.seq()[k].deep_view() == inp[k],
            samples.deep_view() == present(inp.take(it.index() as int)),
    {
        let ghost i = it.index() as int;
        assert(outcome.deep_view() == inp[i]);
        assert(inp.take(i + 1).drop_last() =~= inp.take(i));
        match outcome {
            Some(sample) => {
                samples.push(sample);
            },
            None => {},
        }
    }
    proof {
        assert(inp.take(inp.len() as int) =~= inp);
        lemma_present_len(inp);
    }
    samples
}

/// The projections of a sequence of samples, one for one.
pub open spec fn formatted_all(samples: Seq<MetricSampleView>) -> Seq<ContainerStatsView> {
    samples.map_values(|sample: MetricSampleView| formatted(sample))
}

/// Formats each sample for display, keeping the order.
pub fn format_samples(samples: Vec<MetricSample>) -> (batch: Vec<ContainerStats>)
    ensures
        batch.deep_view() == formatted_all(samples.deep_view()),
{
    let ghost inp = samples.deep_view();
    let mut batch: Vec<ContainerStats> = Vec::new();
    for sample in it: samples
        invariant
            it.seq().len() == inp.len(),
            forall|k: int| 0 <= k < inp.len() ==> #[trigger] it.seq()[k]@ == inp[k],
            batch.deep_view() == formatted_all(inp.take(it.index() as int)),
    {
        let ghost i = it.index() as int;
        let ghost before = batch.deep_view();
        let entry = ContainerStats::from(sample);
        batch.push(entry);
        assert(batch.deep_view() =~= before.push(formatted(inp[i])));
    }
    batch
}

/// Whether `batch` is what one round of sampling shows under a sort key: the
/// samples that arrived, stably sorted and formatted.
pub open spec fn is_collected(
    batch: Seq<ContainerStatsView>,
    outcomes: Seq<Option<MetricSampleView>>,
    key: SortKey,
) -> bool {
    exists|sorted: Seq<MetricSampleView>| #[trigger]
        stably_sorted(sorted, present(outcomes), key) && batch == formatted_all(sorted)
}

/// One round of sampling shows one batch under a sort key.
pub proof fn lemma_collected_unique(
    a: Seq<ContainerStatsView>,
    b: Seq<ContainerStatsView>,
    outcomes: Seq<Option<MetricSampleView>>,
    key: SortKey,
)
    requires
        is_collected(a, outcomes, key),
        is_collected(b, outcomes, key),
    ensures
        a == b,
{
    let sorted_a = choose|sorted: Seq<MetricSampleView>| #[trigger]
        stably_sorted(sorted, present(outcomes), key) && a == formatted_all(sorted);
    let sorted_b = choose|sorted: Seq<MetricSampleView>| #[trigger]
        stably_sorted(sorted, present(outcomes), key) && b == formatted_all(sorted);
    lemma_stable_sort_unique(sorted_a, sorted_b, present(outcomes), key);
}

/// Turns the outcomes of one round of sampling into display-ready statistics
/// in the order of a sort key.
pub fn collect_all_stats(outcomes: Vec<Option<MetricSample>>, sort_key: SortKey) -> (batch: Vec<
    ContainerStats,
>)
    ensures
        is_collected(batch.deep_view(), outcomes.deep_view(), sort_key),
        batch.len() <= outcomes.len(),
{
    let samples = collect_samples(outcomes);
    let sorted = sort_samples(samples, sort_key);
    let ghost order = sorted.deep_view();
    let batch = format_samples(sorted);
    assert(batch.deep_view().len() == order.len());
    batch
}

/// Whether some entry of `batch` carries the identifier `id`.
pub open spec fn has_id(batch: Seq<ContainerStatsView>, id: Seq<char>) -> bool {
    exists|j: int| 0 <= j < batch.len() && #[trigger] batch[j].id == id
}

/// Whether no two entries of `batch` carry the same identifier.
pub open spec fn ids_unique(batch: Seq<ContainerStatsView>) -> bool {
    forall|i: int, j: int|
        0 <= i < j < batch.len() ==> #[trigger] batch[i].id != #[trigger] batch[j].id
}

/// A batch without repeated identifiers: of the entries that share an
/// identifier the first stays, in its place among the others that stay.
pub open spec fn deduplicated(batch: Seq<ContainerStatsView>) -> Seq<ContainerStatsView>
    decreases batch.len(),
{
    if batch.len() == 0 {
        batch
    } else {
        let earlier = deduplicated(batch.drop_last());
        if has_id(batch.drop_last(), batch.last().id) {
            earlier
        } else {
            earlier.push(batch.last())
        }
    }
}

/// Deduplication loses no identifier and invents none.
pub proof fn lemma_deduplicated_keeps_ids(batch: Seq<ContainerStatsView>, id: Seq<char>)
    ensures
        has_id(deduplicated(batch), id) == has_id(batch, id),
    decreases batch.len(),
{
    if batch.len() > 0 {
        let init = batch.drop_last();
        let last = batch.last();
        lemma_deduplicated_keeps_ids(init, id);
        lemma_deduplicated_keeps_ids(init, last.id);
        let kept = deduplicated(batch);
        if has_id(batch, id) {
            // The identifier is carried by an earlier entry, which has it
            // kept, or by the last entry, which is kept or repeats one kept.
            let j = choose|j: int| 0 <= j < batch.len() && #[trigger] batch[j].id == id;
            if j < init.len() {
                assert(init[j].id == id);
            }
            if has_id(init, id) {
                let k = choose|k: int|
                    0 <= k < deduplicated(init).len() && #[trigger] deduplicated(init)[k].id == id;
                assert(kept[k].id == id);
            } else {
                assert(kept[kept.len() - 1].id == id);
            }
        }
        if has_id(kept, id) {
            // What is kept was kept before or is the last entry.
            let k = choose|k: int| 0 <= k < kept.len() && #[trigger] kept[k].id == id;
            if k < deduplicated(init).len() {
                let j = choose|j: int| 0 <= j < init.len() && #[trigger] init[j].id == id;
                assert(batch[j].id == id);
            } else {
                assert(batch[batch.len() - 1].id == id);
            }
        }
    }
}

/// Every entry of a deduplicated batch is the first entry of the batch that
/// carries its identifier.
pub proof fn lemma_deduplicated_keeps_first(batch: Seq<ContainerStatsView>, k: int)
    requires
        0 <= k < deduplicated(batch).len(),
    ensures
        exists|i: int|
            0 <= i < batch.len() && deduplicated(batch)[k] == #[trigger] batch[i] && !has_id(
                batch.take(i),
                batch[i].id,
            ),
    decreases batch.len(),
{
    let init = batch.drop_last();
    if k < deduplicated(init).len() {
        lemma_deduplicated_keeps_first(init, k);
        let i = choose|i: int|
            0 <= i < init.len() && deduplicated(init)[k] == #[trigger] init[i] && !has_id(
                init.take(i),
                init[i].id,
            );
        assert(init.take(i) =~= batch.take(i));
        assert(deduplicated(batch)[k] == batch[i]);
    } else {
        let i = batch.len() - 1;
        assert(batch.take(i) =~= init);
        assert(deduplicated(batch)[k] == batch[i]);
    }
}

/// A deduplicated batch holds no two entries with the same identifier.
pub proof fn lemma_deduplicated_unique(batch: Seq<ContainerStatsView>)
    ensures
        ids_unique(deduplicated(batch)),
    decreases batch.len(),
{
    if batch.len() > 0 {
        let init = batch.drop_last();
        lemma_deduplicated_unique(init);
        lemma_deduplicated_keeps_ids(init, batch.last().id);
    }
}

/// Deduplication leaves a batch without repeated identifiers as it is.
pub proof fn lemma_deduplicated_of_unique(batch: Seq<ContainerStatsView>)
    requires
        ids_unique(batch),
    ensures
        deduplicated(batch) == batch,
    decreases batch.len(),
{
    if batch.len() > 0 {
        let init = batch.drop_last();
        lemma_deduplicated_of_unique(init);
        assert(!has_id(init, batch.last().id)) by {
            if has_id(init, batch.last().id) {
                let j = choose|j: int| 0 <= j < init.len() && #[trigger] init[j].id == batch.last().id;
                assert(batch[j].id == batch[batch.len() - 1].id);
            }
        }
        assert(init.push(batch.last()) =~= batch);
    }
}

/// Deduplicating twice gives what deduplicating once gives.
pub proof fn lemma_deduplicated_idempotent(batch: Seq<ContainerStatsView>)
    ensures
        deduplicated(deduplicated(batch)) == deduplicated(batch),
{
    lemma_deduplicated_unique(batch);
    lemma_deduplicated_of_unique(deduplicated(batch));
}

/// Decides whether some entry of `batch` carries the identifier `id`.
fn contains_id(batch: &Vec<ContainerStats>, id: &String) -> (found: bool)
    ensures
        found == has_id(batch.deep_view(), id@),
{
    let mut k: usize = 0;
    while k < batch.len()
        invariant
            k <= batch.len(),
            forall|j: int| 0 <= j < k ==> (#[trigger] batch.deep_view()[j]).id != id@,
        decreases batch.len() - k,
    {
        if batch[k].id == *id {
            assert(batch.deep_view()[k as int].id == id@);
            return true;
        }
        k += 1;
    }
    false
}

/// Removes the entries whose identifier an earlier entry already carries. What
/// is left holds every identifier of the batch once, in the order of first
/// appearance.
pub fn dedup_by_id(batch: Vec<ContainerStats>) -> (kept: Vec<ContainerStats>)
    ensures
        kept.deep_view() == deduplicated(batch.deep_view()),
        ids_unique(kept.deep_view()),
        kept.len() <= batch.len(),
{
    let ghost inp = batch.deep_view();
    let mut kept: Vec<ContainerStats> = Vec::new();
    for entry in it: batch
        invariant
            it.seq().len() == inp.len(),
            forall|k: int| 0 <= k < inp.len() ==> #[trigger] it.seq()[k]@ == inp[k],
            kept.deep_view() == deduplicated(inp.take(it.index() as int)),
            kept.len() <= it.index(),
    {
        let ghost i = it.index() as int;
        assert(entry@ == inp[i]);
        proof {
            assert(inp.take(i + 1).drop_last() =~= inp.take(i));
            lemma_deduplicated_keeps_ids(inp.take(i), inp[i].id);
        }
        if !contains_id(&kept, &entry.id) {
            kept.push(entry);
        }
    }
    proof {
        assert(inp.take(inp.len() as int) =~= inp);
        lemma_deduplicated_unique(inp);
    }
    kept
}

/// A batch ready for transmission.
#[derive(Debug, Clone, PartialEq, Eq)]
pub struct Batch {
    /// The entries to send, each identifier once.
    pub entries: Vec<ContainerStats>,
    /// How many entries were left out because an earlier entry carried their
    /// identifier. A number above zero is worth reporting; it is no failure.
    pub duplicates_removed: usize,
}

/// Whether `entries` is what is sent for one round of sampling under a sort
/// key, `removed` entries having been left out as repetitions: the round's
/// statistics in order, deduplicated.
pub open spec fn is_prepared(
    entries: Seq<ContainerStatsView>,
    removed: nat,
    outcomes: Seq<Option<MetricSampleView>>,
    key: SortKey,
) -> bool {
    exists|collected: Seq<ContainerStatsView>| #[trigger]
        is_collected(collected, outcomes, key) && entries == deduplicated(collected)
            && collected.len() == entries.len() + removed
}

/// One round of sampling is sent as one batch under a sort key, with one
/// number of repetitions left out.
pub proof fn lemma_prepared_unique(
    a: Seq<ContainerStatsView>,
    removed_a: nat,
    b: Seq<ContainerStatsView>,
    removed_b: nat,
    outcomes: Seq<Option<MetricSampleView>>,
    key: SortKey,
)
    requires
        is_prepared(a, removed_a, outcomes, key),
        is_prepared(b, removed_b, outcomes, key),
    ensures
        a == b,
        removed_a == removed_b,
{
    let collected_a = choose|collected: Seq<ContainerStatsView>| #[trigger]
        is_collected(collected, outcomes, key) && a == deduplicated(collected) && collected.len()
            == a.len() + removed_a;
    let collected_b = choose|collected: Seq<ContainerStatsView>| #[trigger]
        is_collected(collected, outcomes, key) && b == deduplicated(collected) && collected.len()
            == b.len() + removed_b;
    lemma_collected_unique(collected_a, collected_b, outcomes, key);
}

/// Prepares the batch for one round of sampling: the samples that arrived, in
/// the order of the sort key, formatted, and deduplicated by identifier with
/// the first entry in that order staying.
pub fn prepare_batch(outcomes: Vec<Option<MetricSample>>, sort_key: SortKey) -> (batch: Batch)
    ensures
        is_prepared(
            batch.entries.deep_view(),
            batch.duplicates_removed as nat,
            outcomes.deep_view(),
            sort_key,
        ),
        ids_unique(batch.entries.deep_view()),
{
    let collected = collect_all_stats(outcomes, sort_key);
    let total = collected.len();
    let entries = dedup_by_id(collected);
    let duplicates_removed = total - entries.len();
    Batch { entries, duplicates_removed }
}

} // verus!
