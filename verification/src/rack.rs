//! The rack: a full signal graph under evaluation, and its scheduler.
//!
//! A rack owns its modules (keyed by arbitrary, not necessarily sequential
//! integer ids), the patch table, and the per-output-value cache `outs`.
//! The cache persists across ticks, which lets feedback patches read the
//! previous tick's value instead of deadlocking; entries that are still
//! the NaN placeholder are purged at the end of every tick.
//!
//! One call of [`Rack::step`] evaluates every module exactly once, however
//! the patches are drawn, cycles included: first the modules with no
//! dependencies, then, scan by scan, every module whose inbound sources
//! are all cached; when a whole scan steps nothing while modules remain,
//! the remaining dependencies form a cycle and the scheduler materializes
//! NaN for every still-missing source key, which makes the next scan step
//! everything that is left.

use vstd::prelude::*;
use vstd::string::StringSliceAdditionalSpecFns;

use crate::address::{parse_module_key, spec_parse_key, AddressError};
use crate::key::{ModuleIOK, ModuleKey};
use crate::module::{Module, ModuleV};
use crate::outs::Outs;
use crate::patch::{Patch, Patches};
use crate::sample::{Frame, Sample, NAN_BITS};
use crate::timebase::StepType;

verus! {

/// Why a module or patch was rejected at load time.
#[derive(Clone, Copy, Debug, PartialEq, Eq, Structural)]
pub enum RackError {
    /// A module with this id already exists.
    DuplicateId,
    /// The patch's source names a module id the rack does not have.
    UnknownSourceModule,
    /// The patch's source is not an output port of its module.
    SourceNotOutput,
    /// The patch's destination names a module id the rack does not have.
    UnknownDestinationModule,
    /// The patch's destination is not an input or knob port of its module.
    DestinationNotInputOrKnob,
}

/// Why a textual patch line of a rack configuration was rejected.
#[derive(Clone, Copy, Debug, PartialEq, Eq, Structural)]
pub enum PatchLoadError {
    /// The source address does not parse.
    BadSourceAddress(AddressError),
    /// The destination address does not parse.
    BadDestinationAddress(AddressError),
    /// Both addresses parse, but do not name an existing output port and
    /// an existing input or knob port.
    BadEndpoints(RackError),
}

/// Whether any patch leads into an input port of module `id` (a patch
/// into a knob alone does not make the module wait: it steps with the
/// sources and picks the modulation up from the knob-feedback pass).
pub open spec fn has_inbound_input(edges: Seq<Patch>, id: usize) -> bool {
    exists|i: int|
        0 <= i < edges.len() && (#[trigger] edges[i]).dst.id == id && edges[i].dst.iok is Input
}

/// With no patch into any input of `id`, no input of `id` is fed.
proof fn lemma_input_feed_absent(edges: Seq<Patch>, m: Map<ModuleKey, Sample>, id: usize, i: usize)
    requires
        !has_inbound_input(edges, id),
    ensures
        input_feed(edges, m, id, i) is None,
    decreases edges.len(),
{
    if edges.len() > 0 {
        assert(!(edges[edges.len() - 1].dst == (ModuleKey { id, iok: ModuleIOK::Input(i) })));
        assert(forall|j: int|
            0 <= j < edges.drop_last().len() ==> (#[trigger] edges.drop_last()[j]) == edges[j]);
        lemma_input_feed_absent(edges.drop_last(), m, id, i);
    }
}

/// Whether every patch into module `id` has its source value cached.
pub open spec fn inbound_ready(edges: Seq<Patch>, m: Map<ModuleKey, Sample>, id: usize) -> bool {
    forall|i: int|
        0 <= i < edges.len() && (#[trigger] edges[i]).dst.id == id ==> m.contains_key(edges[i].src)
}

/// Whether every patch source, wherever it leads, has a cached value.
pub open spec fn all_sources_present(edges: Seq<Patch>, m: Map<ModuleKey, Sample>) -> bool {
    forall|i: int| 0 <= i < edges.len() ==> m.contains_key((#[trigger] edges[i]).src)
}

/// The source feeding input `i` of module `id`: of the patches into that
/// input whose source has a cached value, the one latest in table order.
/// (Several patches into one input are legal; which of them wins is a
/// detail the design leaves open, and latest-in-table-order is this
/// scheduler's deterministic choice.)
pub open spec fn input_feed(edges: Seq<Patch>, m: Map<ModuleKey, Sample>, id: usize, i: usize) -> Option<
    ModuleKey,
>
    decreases edges.len(),
{
    if edges.len() == 0 {
        None
    } else {
        let e = edges.last();
        if e.dst == (ModuleKey { id, iok: ModuleIOK::Input(i) }) && m.contains_key(e.src) {
            Some(e.src)
        } else {
            input_feed(edges.drop_last(), m, id, i)
        }
    }
}

/// The sample delivered to input `i` of module `id`: the cached value of
/// the feeding source, or NaN when nothing feeds the input.
pub open spec fn delivered(edges: Seq<Patch>, m: Map<ModuleKey, Sample>, id: usize, i: usize) -> Sample {
    match input_feed(edges, m, id, i) {
        Some(src) => m[src],
        None => Sample { bits: NAN_BITS },
    }
}

/// One output patched to several destinations delivers the identical value
/// to every one of them within the same tick.
pub proof fn lemma_fan_out(
    edges: Seq<Patch>,
    m: Map<ModuleKey, Sample>,
    id1: usize,
    i1: usize,
    id2: usize,
    i2: usize,
    src: ModuleKey,
)
    requires
        input_feed(edges, m, id1, i1) == Some(src),
        input_feed(edges, m, id2, i2) == Some(src),
    ensures
        delivered(edges, m, id1, i1) == delivered(edges, m, id2, i2),
{
}

/// The module after every knob patch into `id` is applied, in table order:
/// a patch whose source value is cached and not NaN overwrites its knob.
pub open spec fn knobs_applied(
    mv: ModuleV,
    edges: Seq<Patch>,
    m: Map<ModuleKey, Sample>,
    id: usize,
) -> ModuleV
    decreases edges.len(),
{
    if edges.len() == 0 {
        mv
    } else {
        let prev = knobs_applied(mv, edges.drop_last(), m, id);
        let e = edges.last();
        if e.dst.id == id && m.contains_key(e.src) && !m[e.src].spec_is_nan() {
            match e.dst.iok {
                ModuleIOK::Knob(k) => if k < prev.spec_knobs() {
                    prev.spec_set_knob(k as int, m[e.src])
                } else {
                    prev
                },
                _ => prev,
            }
        } else {
            prev
        }
    }
}

/// The all-NaN input vector a module nothing feeds receives: the
/// "no patch feeds this port" sentinel on every declared input.
pub open spec fn nan_inputs(n: int) -> Seq<Sample> {
    Seq::new(n as nat, |i: int| Sample { bits: NAN_BITS })
}

/// Whether `k` occurs as the source of some patch.
pub open spec fn is_patch_source(edges: Seq<Patch>, k: ModuleKey) -> bool {
    exists|i: int| 0 <= i < edges.len() && (#[trigger] edges[i]).src == k
}

/// The cache key of output `j` of module `id`.
pub open spec fn out_key(id: usize, j: usize) -> ModuleKey {
    ModuleKey { id, iok: ModuleIOK::Output(j) }
}

/// Whether `m` holds, value for value, everything the source pass of a
/// tick at rate `st` recorded for the rack `r0`.
pub open spec fn sources_recorded(r0: Rack, st: StepType, m: Map<ModuleKey, Sample>) -> bool {
    forall|i: int, j: usize|
        0 <= i < r0.n() && r0.is_source_at(i) && (j as int) < r0.source_out(st, i).len()
            ==> m.contains_key(#[trigger] out_key(r0.id_at(i), j)) && m[out_key(r0.id_at(i), j)]
            == r0.source_out(st, i)[j as int]
}

/// Whether `k` is one of the first `n` output-port keys of module `id`.
pub open spec fn is_output_key(k: ModuleKey, id: usize, n: int) -> bool {
    match k.iok {
        ModuleIOK::Output(j) => k.id == id && (j as int) < n,
        _ => false,
    }
}

/// One module evaluation within a tick: the position stepped, the state
/// of the output cache at that moment, and the inputs handed to `step`.
pub struct StepRecord {
    pub idx: int,
    pub cache: Map<ModuleKey, Sample>,
    pub ins: Seq<Sample>,
}

/// Everything one tick did: the module evaluations in order, and the
/// state of the cache once every module had stepped — the state the
/// knob-feedback pass reads and the purge then filters.
pub struct TickTrace {
    pub records: Seq<StepRecord>,
    pub settled: Map<ModuleKey, Sample>,
}

/// `m` with the outputs `louts` of module `id` recorded over it, output
/// `j` under the key `(id, Output(j))`.
pub open spec fn with_outputs(m: Map<ModuleKey, Sample>, id: usize, louts: Seq<Sample>) -> Map<
    ModuleKey,
    Sample,
> {
    Map::new(
        |k: ModuleKey| m.contains_key(k) || is_output_key(k, id, louts.len() as int),
        |k: ModuleKey|
            if is_output_key(k, id, louts.len() as int) {
                louts[k.iok->Output_0 as int]
            } else {
                m[k]
            },
    )
}

/// The module state the scheduler hands to `step` for this record: a
/// source module steps as it stands; any other module first receives its
/// knob patches, resolved against the cache at step time.
pub open spec fn pre_step_state(r0: Rack, rec: StepRecord) -> ModuleV {
    if r0.is_source_at(rec.idx) {
        r0.module_at(rec.idx)
    } else {
        knobs_applied(r0.module_at(rec.idx), r0.patches@, rec.cache, r0.id_at(rec.idx))
    }
}

/// What this record's step returned, one sample per output port.
pub open spec fn record_out(r0: Rack, st: StepType, rec: StepRecord) -> Seq<Sample> {
    pre_step_state(r0, rec).spec_step_out(st, rec.ins)
}

/// The module state right after this record's step.
pub open spec fn record_stepped(r0: Rack, st: StepType, rec: StepRecord) -> ModuleV {
    pre_step_state(r0, rec).spec_stepped(st, rec.ins)
}

/// The record's inputs are exactly what its cache delivered to the
/// module's input ports.
pub open spec fn record_ins_ok(r0: Rack, rec: StepRecord) -> bool {
    rec.ins == Seq::new(
        r0.module_at(rec.idx).spec_inputs() as nat,
        |i: int| delivered(r0.patches@, rec.cache, r0.id_at(rec.idx), i as usize),
    )
}

/// The cache right after this record's outputs are recorded.
pub open spec fn cache_after(r0: Rack, st: StepType, rec: StepRecord) -> Map<ModuleKey, Sample> {
    with_outputs(rec.cache, r0.id_at(rec.idx), record_out(r0, st, rec))
}

/// `m2` is `m1` with at most NaN placeholders added for patch sources:
/// the only way the cache may grow between two module evaluations.
pub open spec fn cache_extends(
    edges: Seq<Patch>,
    m1: Map<ModuleKey, Sample>,
    m2: Map<ModuleKey, Sample>,
) -> bool {
    &&& forall|k: ModuleKey|
        m1.contains_key(k) ==> #[trigger] m2.contains_key(k) && m2[k] == m1[k]
    &&& forall|k: ModuleKey|
        #[trigger] m2.contains_key(k) && !m1.contains_key(k) ==> is_patch_source(edges, k) && m2[k]
            == (Sample { bits: NAN_BITS })
}

proof fn lemma_cache_extends_trans(
    edges: Seq<Patch>,
    a: Map<ModuleKey, Sample>,
    b: Map<ModuleKey, Sample>,
    c: Map<ModuleKey, Sample>,
)
    requires
        cache_extends(edges, a, b),
        cache_extends(edges, b, c),
    ensures
        cache_extends(edges, a, c),
{
}

/// The cache as the next module evaluation may find it.
pub open spec fn last_cache(r0: Rack, st: StepType, records: Seq<StepRecord>) -> Map<
    ModuleKey,
    Sample,
> {
    if records.len() == 0 {
        r0.outs@
    } else {
        cache_after(r0, st, records.last())
    }
}

/// Whether some record stepped position `i`.
pub open spec fn has_record(records: Seq<StepRecord>, i: int) -> bool {
    exists|t: int| 0 <= t < records.len() && (#[trigger] records[t]).idx == i
}

/// Bookkeeping: the flags mark exactly the recorded positions, and no
/// position is recorded twice.
pub open spec fn flags_trace_sync(n: int, flags: Seq<bool>, records: Seq<StepRecord>) -> bool {
    &&& flags.len() == n
    &&& records.len() == count_true(flags)
    &&& forall|t: int| 0 <= t < records.len() ==> 0 <= (#[trigger] records[t]).idx < n
    &&& forall|t1: int, t2: int|
        0 <= t1 < t2 < records.len() ==> records[t1].idx != records[t2].idx
    &&& forall|i: int| 0 <= i < n ==> ((#[trigger] flags[i]) <==> has_record(records, i))
}

/// The per-evaluation facts of a tick's trace: positions in range and
/// pairwise distinct, source modules first, every record's inputs read
/// from its own cache, and each cache extending the previous record's
/// result by at most NaN placeholders for patch sources.
pub open spec fn trace_chain_wf(r0: Rack, st: StepType, records: Seq<StepRecord>) -> bool {
    &&& forall|t: int| 0 <= t < records.len() ==> 0 <= (#[trigger] records[t]).idx < r0.n()
    &&& forall|t1: int, t2: int|
        #![trigger records[t1], records[t2]]
        0 <= t1 < t2 < records.len() ==> records[t1].idx != records[t2].idx
    &&& forall|t1: int, t2: int|
        #![trigger records[t1], records[t2]]
        0 <= t1 < t2 < records.len() && r0.is_source_at(records[t2].idx) ==> r0.is_source_at(
            records[t1].idx,
        )
    &&& forall|t: int| 0 <= t < records.len() ==> record_ins_ok(r0, #[trigger] records[t])
    &&& (records.len() > 0 ==> cache_extends(r0.patches@, r0.outs@, records[0].cache))
    &&& forall|t: int|
        0 <= t < records.len() - 1 ==> cache_extends(
            r0.patches@,
            cache_after(r0, st, #[trigger] records[t]),
            records[t + 1].cache,
        )
}

/// A cache entry that no evaluation of the tick writes is carried through
/// the whole chain of evaluations unchanged.
pub proof fn lemma_cache_chain_preserves(
    r0: Rack,
    st: StepType,
    records: Seq<StepRecord>,
    k: ModuleKey,
)
    requires
        trace_chain_wf(r0, st, records),
        r0.outs@.contains_key(k),
        forall|t: int|
            0 <= t < records.len() ==> !is_output_key(
                k,
                r0.id_at((#[trigger] records[t]).idx),
                record_out(r0, st, records[t]).len() as int,
            ),
    ensures
        last_cache(r0, st, records).contains_key(k),
        last_cache(r0, st, records)[k] == r0.outs@[k],
    decreases records.len(),
{
    if records.len() > 0 {
        let prefix = records.drop_last();
        assert(forall|t: int| 0 <= t < prefix.len() ==> prefix[t] == records[t]);
        assert(trace_chain_wf(r0, st, prefix));
        lemma_cache_chain_preserves(r0, st, prefix, k);
        let rec = records.last();
        assert(rec == records[records.len() - 1]);
        if records.len() == 1 {
            assert(last_cache(r0, st, prefix) == r0.outs@);
            assert(cache_extends(r0.patches@, r0.outs@, rec.cache));
        } else {
            assert(prefix.last() == records[records.len() - 2]);
            assert(last_cache(r0, st, prefix) == cache_after(
                r0,
                st,
                records[records.len() - 2],
            ));
            assert(cache_extends(
                r0.patches@,
                cache_after(r0, st, records[records.len() - 2]),
                rec.cache,
            ));
        }
        assert(last_cache(r0, st, prefix).contains_key(k));
        assert(rec.cache.contains_key(k));
        assert(rec.cache[k] == r0.outs@[k]);
        assert(!is_output_key(k, r0.id_at(rec.idx), record_out(r0, st, rec).len() as int));
        assert(last_cache(r0, st, records) == cache_after(r0, st, rec));
        assert(cache_after(r0, st, rec).contains_key(k));
        assert(cache_after(r0, st, rec)[k] == rec.cache[k]);
    }
}

/// A non-NaN entry of the previous tick that no module of this tick
/// outputs over is still in the cache, unchanged, when the tick settles:
/// real values persist from tick to tick, which is what warm feedback
/// reads.
pub proof fn lemma_untouched_entry_persists(r0: Rack, st: StepType, tr: TickTrace, k: ModuleKey)
    requires
        trace_chain_wf(r0, st, tr.records),
        cache_extends(r0.patches@, last_cache(r0, st, tr.records), tr.settled),
        r0.outs@.contains_key(k),
        forall|t: int|
            0 <= t < tr.records.len() ==> !is_output_key(
                k,
                r0.id_at((#[trigger] tr.records[t]).idx),
                record_out(r0, st, tr.records[t]).len() as int,
            ),
    ensures
        tr.settled.contains_key(k),
        tr.settled[k] == r0.outs@[k],
{
    lemma_cache_chain_preserves(r0, st, tr.records, k);
    assert(last_cache(r0, st, tr.records).contains_key(k));
    assert(tr.settled.contains_key(k));
    assert(tr.settled[k] == last_cache(r0, st, tr.records)[k]);
}

/// Recording one fresh position keeps the books straight.
proof fn lemma_trace_step(n: int, flags1: Seq<bool>, records1: Seq<StepRecord>, rec: StepRecord)
    requires
        flags_trace_sync(n, flags1, records1),
        0 <= rec.idx < n,
        !flags1[rec.idx],
    ensures
        flags_trace_sync(n, flags1.update(rec.idx, true), records1.push(rec)),
        count_true(flags1.update(rec.idx, true)) == count_true(flags1) + 1,
{
    lemma_count_true_update(flags1, rec.idx);
    let flags2 = flags1.update(rec.idx, true);
    let records2 = records1.push(rec);
    assert(!has_record(records1, rec.idx));
    assert forall|t1: int, t2: int| 0 <= t1 < t2 < records2.len() implies records2[t1].idx
        != records2[t2].idx by {
        if t2 == records1.len() {
            if records2[t1].idx == rec.idx {
                assert(records1[t1].idx == rec.idx);
                assert(has_record(records1, rec.idx));
            }
        }
    }
    assert forall|i: int| 0 <= i < n implies ((#[trigger] flags2[i]) <==> has_record(
        records2,
        i,
    )) by {
        if i == rec.idx {
            assert(records2[records1.len() as int].idx == i);
        } else {
            if has_record(records1, i) {
                let t = choose|t: int| 0 <= t < records1.len() && records1[t].idx == i;
                assert(records2[t].idx == i);
            }
            if has_record(records2, i) {
                let t = choose|t: int| 0 <= t < records2.len() && records2[t].idx == i;
                assert(t < records1.len());
                assert(records1[t].idx == i);
            }
        }
    }
}

/// True when some patch leads into an input port of module `id`.
pub fn has_inbound_input_edge(patches: &Patches, id: usize) -> (b: bool)
    ensures
        b == has_inbound_input(patches@, id),
{
    let n = patches.len();
    let mut j: usize = 0;
    while j < n
        invariant
            n == patches@.len(),
            0 <= j <= n,
            forall|i: int|
                0 <= i < j ==> !((#[trigger] patches@[i]).dst.id == id
                    && patches@[i].dst.iok is Input),
        decreases n - j,
    {
        let e = patches.get(j);
        if e.dst.id == id && e.dst.iok.is_input() {
            return true;
        }
        j = j + 1;
    }
    false
}

/// True when every patch into module `id` has its source value cached.
pub fn inbound_present(patches: &Patches, outs: &Outs, id: usize) -> (b: bool)
    ensures
        b == inbound_ready(patches@, outs@, id),
{
    let n = patches.len();
    let mut j: usize = 0;
    while j < n
        invariant
            n == patches@.len(),
            0 <= j <= n,
            forall|i: int|
                0 <= i < j && (#[trigger] patches@[i]).dst.id == id ==> outs@.contains_key(
                    patches@[i].src,
                ),
        decreases n - j,
    {
        let e = patches.get(j);
        if e.dst.id == id {
            if !outs.contains(e.src) {
                return false;
            }
        }
        j = j + 1;
    }
    true
}

/// Build the input vector for module `id`: one sample per input port,
/// NaN by default, overwritten by the value feeding the port.
pub fn build_inputs(patches: &Patches, outs: &Outs, id: usize, n_inputs: usize) -> (v: Vec<Sample>)
    requires
        outs.wf(),
    ensures
        v@.len() == n_inputs,
        forall|i: usize|
            i < n_inputs ==> v@[i as int] == delivered(patches@, outs@, id, i),
        forall|i: usize|
            i < n_inputs && input_feed(patches@, outs@, id, i) is None ==> (#[trigger] v@[i as int]).spec_is_nan(),
{
    let mut v: Vec<Sample> = Vec::new();
    let mut i: usize = 0;
    while i < n_inputs
        invariant
            v@.len() == i,
            0 <= i <= n_inputs,
            forall|t: int| 0 <= t < i ==> v@[t] == (Sample { bits: NAN_BITS }),
        decreases n_inputs - i,
    {
        v.push(Sample::nan());
        i = i + 1;
    }
    let m = patches.len();
    let mut j: usize = 0;
    while j < m
        invariant
            outs.wf(),
            m == patches@.len(),
            0 <= j <= m,
            v@.len() == n_inputs,
            forall|i2: usize|
                i2 < n_inputs ==> v@[i2 as int] == delivered(
                    patches@.take(j as int),
                    outs@,
                    id,
                    i2,
                ),
        decreases m - j,
    {
        let e = patches.get(j);
        proof {
            assert(patches@.take(j + 1).drop_last() =~= patches@.take(j as int));
            assert(patches@.take(j + 1).last() == patches@[j as int]);
        }
        if e.dst.id == id {
            match e.dst.iok {
                ModuleIOK::Input(i0) => {
                    if i0 < n_inputs {
                        match outs.get(e.src) {
                            Some(val) => {
                                v[i0] = val;
                            },
                            None => {
                            },
                        }
                    }
                },
                _ => {
                },
            }
        }
        j = j + 1;
    }
    proof {
        assert(patches@.take(m as int) =~= patches@);
        crate::sample::lemma_nan_sentinel();
    }
    v
}

/// Apply every knob patch into module `id` whose source value is cached
/// and not NaN, in table order.
pub fn apply_knob_patches(m: &mut Module, patches: &Patches, outs: &Outs, id: usize)
    requires
        outs.wf(),
    ensures
        final(m)@ =~= knobs_applied(old(m)@, patches@, outs@, id),
{
    let ghost m0 = old(m)@;
    let n = patches.len();
    let mut j: usize = 0;
    while j < n
        invariant
            outs.wf(),
            n == patches@.len(),
            0 <= j <= n,
            m@ =~= knobs_applied(m0, patches@.take(j as int), outs@, id),
        decreases n - j,
    {
        let e = patches.get(j);
        proof {
            assert(patches@.take(j + 1).drop_last() =~= patches@.take(j as int));
            assert(patches@.take(j + 1).last() == patches@[j as int]);
        }
        if e.dst.id == id {
            match e.dst.iok {
                ModuleIOK::Knob(k) => {
                    match outs.get(e.src) {
                        Some(val) => {
                            if !val.is_nan() && k < m.knobs() {
                                m.set_knob(k, val);
                            }
                        },
                        None => {
                        },
                    }
                },
                _ => {
                },
            }
        }
        j = j + 1;
    }
    proof {
        assert(patches@.take(n as int) =~= patches@);
    }
}

/// Record the outputs of module `id` into the cache, output `j` of the
/// module under the key `(id, Output(j))`.
fn record_outputs(outs: &mut Outs, id: usize, louts: &Vec<Sample>)
    requires
        old(outs).wf(),
    ensures
        final(outs).wf(),
        forall|j: usize|
            (j as int) < louts@.len() ==> final(outs)@.contains_key(#[trigger] out_key(id, j))
                && final(outs)@[out_key(id, j)] == louts@[j as int],
        forall|k: ModuleKey|
            !is_output_key(k, id, louts@.len() as int) ==> (#[trigger] final(outs)@.contains_key(k)
                == old(outs)@.contains_key(k)) && (old(outs)@.contains_key(k) ==> final(outs)@[k]
                == old(outs)@[k]),
        forall|k: ModuleKey|
            old(outs)@.contains_key(k) ==> #[trigger] final(outs)@.contains_key(k),
{
    let ghost o0 = old(outs)@;
    let n = louts.len();
    let mut j: usize = 0;
    while j < n
        invariant
            outs.wf(),
            n == louts@.len(),
            0 <= j <= n,
            forall|t: usize|
                (t as int) < j ==> outs@.contains_key(#[trigger] out_key(id, t))
                    && outs@[out_key(id, t)] == louts@[t as int],
            forall|k: ModuleKey|
                !is_output_key(k, id, j as int) ==> (#[trigger] outs@.contains_key(k)
                    == o0.contains_key(k)) && (o0.contains_key(k) ==> outs@[k] == o0[k]),
            forall|k: ModuleKey| o0.contains_key(k) ==> #[trigger] outs@.contains_key(k),
        decreases n - j,
    {
        outs.insert(ModuleKey { id, iok: ModuleIOK::Output(j) }, louts[j]);
        j = j + 1;
    }
}

/// Materialize the NaN placeholder for every patch source that has no
/// cached value yet, so that the next scan can step what remains.
#[verifier::spinoff_prover]
#[verifier::rlimit(60)]
fn fill_missing_sources(patches: &Patches, outs: &mut Outs)
    requires
        old(outs).wf(),
    ensures
        final(outs).wf(),
        all_sources_present(patches@, final(outs)@),
        forall|k: ModuleKey|
            old(outs)@.contains_key(k) ==> #[trigger] final(outs)@.contains_key(k)
                && final(outs)@[k] == old(outs)@[k],
        forall|k: ModuleKey|
            #[trigger] final(outs)@.contains_key(k) && !old(outs)@.contains_key(k)
                ==> is_patch_source(patches@, k) && final(outs)@[k] == (Sample { bits: NAN_BITS }),
{
    let ghost o0 = old(outs)@;
    let n = patches.len();
    let mut j: usize = 0;
    while j < n
        invariant
            outs.wf(),
            n == patches@.len(),
            0 <= j <= n,
            forall|i: int| 0 <= i < j ==> outs@.contains_key((#[trigger] patches@[i]).src),
            forall|k: ModuleKey|
                o0.contains_key(k) ==> #[trigger] outs@.contains_key(k) && outs@[k] == o0[k],
            forall|k: ModuleKey|
                #[trigger] outs@.contains_key(k) && !o0.contains_key(k) ==> is_patch_source(
                    patches@,
                    k,
                ) && outs@[k] == (Sample { bits: NAN_BITS }),
        decreases n - j,
    {
        let e = patches.get(j);
        if !outs.contains(e.src) {
            outs.insert(e.src, Sample::nan());
        }
        j = j + 1;
    }
}

/// A rack: modules, patches, and the persistent output cache.
pub struct Rack {
    pub modules: Vec<(usize, Module)>,
    pub patches: Patches,
    pub outs: Outs,
}

impl Rack {
    /// Number of modules.
    pub open spec fn n(self) -> int {
        self.modules@.len() as int
    }

    /// The module ids, in table order.
    pub open spec fn ids(self) -> Seq<usize> {
        Seq::new(self.modules@.len(), |i: int| self.modules@[i].0)
    }

    /// The id of the module at position `i`.
    pub open spec fn id_at(self, i: int) -> usize {
        self.modules@[i].0
    }

    /// The state of the module at position `i`.
    pub open spec fn module_at(self, i: int) -> ModuleV {
        self.modules@[i].1@
    }

    /// Whether some module has id `id`.
    pub open spec fn has_id(self, id: usize) -> bool {
        self.ids().contains(id)
    }

    /// The position of the module with id `id`.
    pub open spec fn idx_of(self, id: usize) -> int {
        self.ids().index_of(id)
    }

    /// The state of the module with id `id`.
    pub open spec fn module_of(self, id: usize) -> ModuleV {
        self.module_at(self.idx_of(id))
    }

    /// Whether the module at position `i` steps in the source pass of a
    /// tick: it declares no inputs, or no patch leads into any of its
    /// inputs.
    pub open spec fn is_source_at(self, i: int) -> bool {
        self.module_at(i).spec_inputs() == 0 || !has_inbound_input(self.patches@, self.id_at(i))
    }

    /// What the module at position `i` produces in the source pass,
    /// stepped on the NaN sentinel at every declared input.
    pub open spec fn source_out(self, st: StepType, i: int) -> Seq<Sample> {
        self.module_at(i).spec_step_out(
            st,
            nan_inputs(self.module_at(i).spec_inputs() as int),
        )
    }

    /// No two modules share an id.
    pub open spec fn ids_unique(self) -> bool {
        forall|i: int, j: int| 0 <= i < j < self.n() ==> self.id_at(i) != self.id_at(j)
    }

    /// A patch is well-formed when its source is an existing output port
    /// and its destination an existing input or knob port.
    /// Whether `src` is an output port of an existing module.
    pub open spec fn spec_src_ok(self, src: ModuleKey) -> bool {
        &&& self.has_id(src.id)
        &&& match src.iok {
            ModuleIOK::Output(o) => o < self.module_of(src.id).spec_outputs(),
            _ => false,
        }
    }

    /// Whether `dst` is an input or knob port of an existing module.
    pub open spec fn spec_dst_ok(self, dst: ModuleKey) -> bool {
        &&& self.has_id(dst.id)
        &&& match dst.iok {
            ModuleIOK::Input(i) => i < self.module_of(dst.id).spec_inputs(),
            ModuleIOK::Knob(k) => k < self.module_of(dst.id).spec_knobs(),
            _ => false,
        }
    }

    /// The exact condition under which adding the patch from `src` to
    /// `dst` earns the error `e`; the checks run in order: source
    /// module, source port, destination module, destination port.
    pub open spec fn spec_patch_error(self, src: ModuleKey, dst: ModuleKey, e: RackError) -> bool {
        match e {
            RackError::UnknownSourceModule => !self.has_id(src.id),
            RackError::SourceNotOutput => self.has_id(src.id) && !self.spec_src_ok(src),
            RackError::UnknownDestinationModule => self.spec_src_ok(src) && !self.has_id(dst.id),
            RackError::DestinationNotInputOrKnob => self.spec_src_ok(src) && self.has_id(dst.id)
                && !self.spec_dst_ok(dst),
            RackError::DuplicateId => false,
        }
    }

    pub open spec fn patch_wf(self, p: Patch) -> bool {
        self.spec_src_ok(p.src) && self.spec_dst_ok(p.dst)
    }

    /// Well-formedness: unique ids, a duplicate-free cache, and only
    /// well-formed patches.
    pub open spec fn wf(self) -> bool {
        &&& self.ids_unique()
        &&& self.outs.wf()
        &&& forall|i: int| 0 <= i < self.patches@.len() ==> self.patch_wf(#[trigger] self.patches@[i])
    }

    /// Whether the modules of `self` have the same ids and arities as
    /// those of `other`, position by position.
    pub open spec fn same_shape(self, other: Rack) -> bool {
        &&& self.n() == other.n()
        &&& forall|i: int| 0 <= i < self.n() ==> self.id_at(i) == #[trigger] other.id_at(i)
        &&& forall|i: int|
            0 <= i < self.n() ==> (#[trigger] self.module_at(i)).spec_inputs() == other.module_at(
                i,
            ).spec_inputs() && self.module_at(i).spec_outputs() == other.module_at(i).spec_outputs()
                && self.module_at(i).spec_knobs() == other.module_at(i).spec_knobs()
    }

    /// An empty rack.
    pub fn new() -> (r: Rack)
        ensures
            r.wf(),
            r.n() == 0,
            r.patches@ =~= Seq::<Patch>::empty(),
            r.outs@ =~= Map::<ModuleKey, Sample>::empty(),
    {
        Rack { modules: Vec::new(), patches: Patches::new(), outs: Outs::new() }
    }

    /// The position of the module with id `id`, if the rack has one.
    fn find_index(&self, id: usize) -> (r: Option<usize>)
        requires
            self.ids_unique(),
        ensures
            match r {
                Some(i) => self.has_id(id) && i < self.n() && self.id_at(i as int) == id
                    && self.idx_of(id) == i,
                None => !self.has_id(id),
            },
    {
        let n = self.modules.len();
        let mut i: usize = 0;
        while i < n
            invariant
                self.ids_unique(),
                n == self.modules@.len(),
                0 <= i <= n,
                forall|j: int| 0 <= j < i ==> self.id_at(j) != id,
            decreases n - i,
        {
            if self.modules[i].0 == id {
                proof {
                    assert(self.ids()[i as int] == id);
                    assert(exists|j: int| 0 <= j < self.ids().len() && self.ids()[j] == id);
                    let w = self.idx_of(id);
                    assert(0 <= w < self.n() && self.ids()[w] == id);
                    assert(self.id_at(w) == id && self.id_at(i as int) == id);
                    if w < i {
                        assert(self.id_at(w) != self.id_at(i as int));
                    } else if i < w {
                        assert(self.id_at(i as int) != self.id_at(w));
                    }
                }
                return Some(i);
            }
            i = i + 1;
        }
        proof {
            assert forall|j: int| 0 <= j < self.ids().len() implies self.ids()[j] != id by {
                assert(self.ids()[j] == self.id_at(j));
            }
        }
        None
    }

    /// A read-only borrow of the module with id `id`.
    pub fn get_module(&self, id: usize) -> (r: Option<&Module>)
        requires
            self.ids_unique(),
        ensures
            match r {
                Some(m) => self.has_id(id) && m@ == self.module_of(id),
                None => !self.has_id(id),
            },
    {
        match self.find_index(id) {
            Some(i) => Some(&self.modules[i].1),
            None => None,
        }
    }

    /// The cached value of an output port, if the cache holds one.
    pub fn output_value(&self, k: ModuleKey) -> (r: Option<Sample>)
        requires
            self.outs.wf(),
        ensures
            match r {
                Some(v) => self.outs@.contains_key(k) && v == self.outs@[k],
                None => !self.outs@.contains_key(k),
            },
    {
        self.outs.get(k)
    }

    /// Step the module at position `idx` with inputs `ins`, first applying
    /// its knob patches when `with_knobs` is set, and record its outputs.
    fn run_module_at(&mut self, idx: usize, time: u64, st: StepType, ins: &Vec<Sample>, with_knobs: bool)
        requires
            old(self).wf(),
            idx < old(self).n(),
            ins@.len() == old(self).module_at(idx as int).spec_inputs(),
        ensures
            final(self).wf(),
            old(self).same_shape(*final(self)),
            final(self).ids() == old(self).ids(),
            final(self).patches@ == old(self).patches@,
            ({
                let id = old(self).id_at(idx as int);
                let mv0 = if with_knobs {
                    knobs_applied(
                        old(self).module_at(idx as int),
                        old(self).patches@,
                        old(self).outs@,
                        id,
                    )
                } else {
                    old(self).module_at(idx as int)
                };
                let louts = mv0.spec_step_out(st, ins@);
                &&& final(self).module_at(idx as int) == mv0.spec_stepped(st, ins@)
                &&& forall|i: int|
                    0 <= i < old(self).n() && i != idx
                        ==> final(self).module_at(i) == old(self).module_at(i)
                &&& forall|j: usize|
                    (j as int) < louts.len() ==> final(self).outs@.contains_key(
                        #[trigger] out_key(id, j),
                    ) && final(self).outs@[out_key(id, j)] == louts[j as int]
                &&& forall|k: ModuleKey|
                    !is_output_key(k, id, louts.len() as int)
                        ==> (#[trigger] final(self).outs@.contains_key(k)
                            == old(self).outs@.contains_key(k))
                        && (old(self).outs@.contains_key(k)
                            ==> final(self).outs@[k] == old(self).outs@[k])
                &&& forall|k: ModuleKey|
                    old(self).outs@.contains_key(k)
                        ==> #[trigger] final(self).outs@.contains_key(k)
                &&& final(self).outs@ =~= with_outputs(old(self).outs@, id, louts)
            }),
    {
        let ghost r0 = *old(self);
        let id_m = self.modules[idx].0;
        let mut pair = self.modules.remove(idx);
        if with_knobs {
            apply_knob_patches(&mut pair.1, &self.patches, &self.outs, id_m);
            proof {
                lemma_knobs_applied_arity(
                    r0.module_at(idx as int),
                    r0.patches@,
                    r0.outs@,
                    id_m,
                );
            }
        }
        let louts = pair.1.step(time, st, ins);
        self.modules.insert(idx, pair);
        proof {
            assert(self.modules@ =~= r0.modules@.update(
                idx as int,
                self.modules@[idx as int],
            ));
            assert(self.modules@[idx as int].0 == id_m);
            assert forall|i: int| 0 <= i < r0.ids().len() implies self.ids()[i] == r0.ids()[i] by {
                assert(self.id_at(i) == r0.id_at(i));
            }
            assert(self.ids() =~= r0.ids());
            let mv0 = if with_knobs {
                knobs_applied(r0.module_at(idx as int), r0.patches@, r0.outs@, id_m)
            } else {
                r0.module_at(idx as int)
            };
            mv0.lemma_arity_stable(st, ins@, 0, Sample { bits: 0 }, Seq::empty());
            assert(r0.same_shape(*self));
        }
        record_outputs(&mut self.outs, id_m, &louts);
        proof {
            assert(r0.same_shape(*self));
            assert forall|i: int| 0 <= i < self.patches@.len() implies self.patch_wf(
                #[trigger] self.patches@[i],
            ) by {
                lemma_patch_wf_same_shape(r0, *self, self.patches@[i]);
            }
            let target = with_outputs(r0.outs@, id_m, louts@);
            assert forall|k: ModuleKey| #[trigger] self.outs@.contains_key(k) implies
                target.contains_key(k) && self.outs@[k] == target[k] by {
                if is_output_key(k, id_m, louts@.len() as int) {
                    let j = k.iok->Output_0;
                    assert(k == out_key(id_m, j));
                    assert(self.outs@[out_key(id_m, j)] == louts@[j as int]);
                } else {
                    assert(r0.outs@.contains_key(k));
                }
            }
            assert forall|k: ModuleKey| #[trigger] target.contains_key(k) implies
                self.outs@.contains_key(k) by {
                if is_output_key(k, id_m, louts@.len() as int) {
                    let j = k.iok->Output_0;
                    assert(k == out_key(id_m, j));
                }
            }
            assert(self.outs@ =~= target);
        }
    }

    /// Run the knob-feedback pass for the module at position `idx`: now
    /// that every module has stepped, re-apply its knob patches so the
    /// modulation is visible to the owner starting with its next step.
    fn knob_feedback_at(&mut self, idx: usize)
        requires
            old(self).wf(),
            idx < old(self).n(),
        ensures
            final(self).wf(),
            old(self).same_shape(*final(self)),
            final(self).ids() == old(self).ids(),
            final(self).patches@ == old(self).patches@,
            final(self).outs == old(self).outs,
            final(self).module_at(idx as int) == knobs_applied(
                old(self).module_at(idx as int),
                old(self).patches@,
                old(self).outs@,
                old(self).id_at(idx as int),
            ),
            forall|i: int|
                0 <= i < old(self).n() && i != idx
                    ==> final(self).module_at(i) == old(self).module_at(i),
    {
        let ghost r0 = *old(self);
        let id_m = self.modules[idx].0;
        let mut pair = self.modules.remove(idx);
        apply_knob_patches(&mut pair.1, &self.patches, &self.outs, id_m);
        self.modules.insert(idx, pair);
        proof {
            assert(self.modules@ =~= r0.modules@.update(idx as int, self.modules@[idx as int]));
            lemma_knobs_applied_arity(r0.module_at(idx as int), r0.patches@, r0.outs@, id_m);
            lemma_module_update_wf(r0, *self, idx as int);
        }
    }

    /// Evaluate every module exactly once for tick time `time` at rate
    /// `st`. Modules with no declared inputs, or with no patch into any
    /// input, step first, reading the NaN sentinel on every input; then
    /// scans step whatever has all its inbound sources cached; a scan
    /// that steps nothing while modules remain means the rest is a
    /// cycle, and the still-missing source keys are materialized as NaN
    /// so the next scan finishes. The knob-feedback pass then re-applies
    /// knob patches, and the NaN placeholders are purged; real values
    /// persist into the next tick.
    ///
    /// Returns the tick's trace: one [`StepRecord`] per module, exactly
    /// once each, sources first, with the cache each evaluation saw and
    /// the inputs it was handed; `settled` is the cache the knob pass
    /// read and the purge filtered. The ensures pin the whole tick to
    /// this trace: each record's inputs are what its cache delivered,
    /// the cache only ever grew by recorded outputs and NaN
    /// placeholders, every module ends as its stepped, knob-fed state,
    /// and the final cache is the settled one with NaN purged.
    #[verifier::spinoff_prover]
    #[verifier::rlimit(100)]
    pub fn step(&mut self, time: u64, st: StepType) -> (trace: Ghost<TickTrace>)
        requires
            old(self).wf(),
        ensures
            final(self).wf(),
            old(self).same_shape(*final(self)),
            final(self).ids() == old(self).ids(),
            final(self).patches@ == old(self).patches@,
            forall|k: ModuleKey|
                #[trigger] final(self).outs@.contains_key(k)
                    ==> !final(self).outs@[k].spec_is_nan(),
            trace@.records.len() == old(self).n(),
            forall|i: int| 0 <= i < old(self).n() ==> has_record(trace@.records, i),
            trace_chain_wf(*old(self), st, trace@.records),
            cache_extends(
                old(self).patches@,
                last_cache(*old(self), st, trace@.records),
                trace@.settled,
            ),
            forall|t: int|
                0 <= t < trace@.records.len() ==> final(self).module_at(
                    (#[trigger] trace@.records[t]).idx,
                ) == knobs_applied(
                    record_stepped(*old(self), st, trace@.records[t]),
                    old(self).patches@,
                    trace@.settled,
                    old(self).id_at(trace@.records[t].idx),
                ),
            forall|k: ModuleKey|
                #[trigger] final(self).outs@.contains_key(k) <==> trace@.settled.contains_key(k)
                    && !trace@.settled[k].spec_is_nan(),
            forall|k: ModuleKey|
                #[trigger] final(self).outs@.contains_key(k) ==> final(self).outs@[k]
                    == trace@.settled[k],
            forall|i: int, j: usize|
                0 <= i < old(self).n() && old(self).is_source_at(i) && (j as int) < old(
                    self,
                ).source_out(st, i).len() && !old(self).source_out(st, i)[j as int].spec_is_nan()
                    ==> final(self).outs@.contains_key(
                    #[trigger] out_key(old(self).id_at(i), j),
                ) && final(self).outs@[out_key(old(self).id_at(i), j)] == old(self).source_out(
                    st,
                    i,
                )[j as int],
    {
        let ghost r0 = *old(self);
        let n = self.modules.len();
        let mut flags: Vec<bool> = Vec::new();
        let mut t: usize = 0;
        while t < n
            invariant
                flags@.len() == t,
                0 <= t <= n,
                forall|i: int| 0 <= i < t ==> !flags@[i],
            decreases n - t,
        {
            flags.push(false);
            t = t + 1;
        }
        proof {
            lemma_count_true_all_false(flags@);
            assert forall|i: int, j: int| 0 <= i < j < r0.ids().len() implies r0.ids()[i]
                != r0.ids()[j] by {
                assert(r0.ids()[i] == r0.id_at(i) && r0.ids()[j] == r0.id_at(j));
            }
        }
        let ghost mut records: Seq<StepRecord> = Seq::empty();
        let mut stepped_count: usize = 0;

        // Sources: no declared inputs, or no inbound input-patch at all.
        let mut idx: usize = 0;
        while idx < n
            invariant
                self.wf(),
                r0.wf(),
                forall|i: int, j: int| 0 <= i < j < r0.ids().len() ==> r0.ids()[i] != r0.ids()[j],
                n == self.n(),
                self.ids() == r0.ids(),
                r0.same_shape(*self),
                self.patches@ == r0.patches@,
                flags@.len() == n,
                0 <= idx <= n,
                stepped_count == count_true(flags@),
                flags_trace_sync(n as int, flags@, records),
                trace_chain_wf(r0, st, records),
                cache_extends(r0.patches@, last_cache(r0, st, records), self.outs@),
                forall|i: int| idx <= i < n ==> !flags@[i],
                forall|i: int|
                    0 <= i < n && !flags@[i] ==> #[trigger] self.module_at(i) == r0.module_at(i),
                forall|t2: int|
                    0 <= t2 < records.len() ==> r0.is_source_at((#[trigger] records[t2]).idx),
                forall|t2: int|
                    0 <= t2 < records.len() ==> self.module_at((#[trigger] records[t2]).idx)
                        == record_stepped(r0, st, records[t2]),
                forall|i: int| 0 <= i < idx ==> (flags@[i] <==> r0.is_source_at(i)),
                forall|i: int, j: usize|
                    0 <= i < idx && r0.is_source_at(i) && (j as int) < r0.source_out(st, i).len()
                        ==> self.outs@.contains_key(#[trigger] out_key(r0.id_at(i), j))
                        && self.outs@[out_key(r0.id_at(i), j)] == r0.source_out(st, i)[j as int],
            decreases n - idx,
        {
            let id_m = self.modules[idx].0;
            let n_ins = self.modules[idx].1.inputs();
            let zero_dep = n_ins == 0 || !has_inbound_input_edge(&self.patches, id_m);
            proof {
                assert(self.module_at(idx as int) == r0.module_at(idx as int));
                assert(self.ids()[idx as int] == self.id_at(idx as int));
                assert(r0.ids()[idx as int] == r0.id_at(idx as int));
                assert(id_m == r0.id_at(idx as int));
                assert(zero_dep == r0.is_source_at(idx as int));
            }
            if zero_dep {
                let ins = build_inputs(&self.patches, &self.outs, id_m, n_ins);
                let ghost rec = StepRecord { idx: idx as int, cache: self.outs@, ins: ins@ };
                proof {
                    assert(id_m == r0.ids()[idx as int]);
                    assert forall|t2: int| 0 <= t2 < n_ins implies ins@[t2] == (Sample {
                        bits: NAN_BITS,
                    }) by {
                        lemma_input_feed_absent(self.patches@, self.outs@, id_m, t2 as usize);
                        assert(ins@[t2] == delivered(self.patches@, self.outs@, id_m, t2 as usize));
                    }
                    assert(ins@ =~= nan_inputs(n_ins as int));
                    assert(rec.ins =~= Seq::new(
                        r0.module_at(rec.idx).spec_inputs() as nat,
                        |i: int| delivered(r0.patches@, rec.cache, r0.id_at(rec.idx), i as usize),
                    ));
                    assert(record_ins_ok(r0, rec));
                    lemma_trace_step(n as int, flags@, records, rec);
                }
                let ghost self_before = *self;
                self.run_module_at(idx, time, st, &ins, false);
                proof {
                    lemma_same_shape_trans(r0, self_before, *self);
                    assert(pre_step_state(r0, rec) == self_before.module_at(idx as int));
                    assert(record_out(r0, st, rec) =~= self_before.module_at(
                        idx as int,
                    ).spec_step_out(st, ins@));
                    assert(self_before.id_at(idx as int) == id_m);
                    assert(self.outs@ =~= with_outputs(
                        rec.cache,
                        id_m,
                        self_before.module_at(idx as int).spec_step_out(st, ins@),
                    ));
                    assert(self.outs@ =~= cache_after(r0, st, rec));
                    assert(self.module_at(idx as int) =~= record_stepped(r0, st, rec));
                    assert(r0.source_out(st, idx as int) =~= self_before.module_at(
                        idx as int,
                    ).spec_step_out(st, ins@));
                    assert forall|i: int, j: usize|
                        0 <= i < idx + 1 && r0.is_source_at(i) && (j as int) < r0.source_out(
                            st,
                            i,
                        ).len() implies self.outs@.contains_key(
                        out_key(r0.id_at(i), j),
                    ) by {
                        if i < idx {
                            assert(r0.ids()[i] == r0.id_at(i) && r0.ids()[idx as int] == r0.id_at(
                                idx as int,
                            ));
                            assert(r0.id_at(i) != r0.id_at(idx as int));
                            assert(!is_output_key(
                                out_key(r0.id_at(i), j),
                                id_m,
                                self_before.module_at(idx as int).spec_step_out(st, ins@).len() as int,
                            ));
                        } else {
                            assert(i == idx);
                            assert((j as int) < self_before.module_at(idx as int).spec_step_out(
                                st,
                                ins@,
                            ).len());
                        }
                    }
                    assert forall|i: int, j: usize|
                        0 <= i < idx + 1 && r0.is_source_at(i) && (j as int) < r0.source_out(
                            st,
                            i,
                        ).len() && self.outs@.contains_key(
                        out_key(r0.id_at(i), j),
                    ) implies self.outs@[out_key(r0.id_at(i), j)] == r0.source_out(st, i)[j as int] by {
                        if i < idx {
                            assert(r0.ids()[i] == r0.id_at(i) && r0.ids()[idx as int] == r0.id_at(
                                idx as int,
                            ));
                            assert(r0.id_at(i) != r0.id_at(idx as int));
                            assert(!is_output_key(
                                out_key(r0.id_at(i), j),
                                id_m,
                                self_before.module_at(idx as int).spec_step_out(st, ins@).len() as int,
                            ));
                        } else {
                            assert(i == idx);
                            assert((j as int) < self_before.module_at(idx as int).spec_step_out(
                                st,
                                ins@,
                            ).len());
                        }
                    }
                    let ghost records1 = records.push(rec);
                    assert(forall|t2: int| 0 <= t2 < records.len() ==> records1[t2] == records[t2]);
                    assert(records1.last() == rec);
                    assert(trace_chain_wf(r0, st, records1));
                    assert(cache_extends(r0.patches@, last_cache(r0, st, records1), self.outs@));
                    assert forall|t2: int| 0 <= t2 < records1.len() implies self.module_at(
                        (#[trigger] records1[t2]).idx,
                    ) == record_stepped(r0, st, records1[t2]) by {
                        if t2 < records.len() {
                            assert(flags@[records[t2].idx]);
                            assert(records[t2].idx != idx);
                        }
                    }
                    records = records1;
                }
                flags[idx] = true;
                proof {
                    lemma_count_true_bounds(flags@);
                }
                stepped_count = stepped_count + 1;
            }
            idx = idx + 1;
        }

        // Iterative resolution with structural cycle breaking.
        while stepped_count < n
            invariant
                self.wf(),
                r0.wf(),
                forall|i: int, j: int| 0 <= i < j < r0.ids().len() ==> r0.ids()[i] != r0.ids()[j],
                n == self.n(),
                self.ids() == r0.ids(),
                r0.same_shape(*self),
                self.patches@ == r0.patches@,
                flags@.len() == n,
                stepped_count == count_true(flags@),
                flags_trace_sync(n as int, flags@, records),
                trace_chain_wf(r0, st, records),
                cache_extends(r0.patches@, last_cache(r0, st, records), self.outs@),
                forall|i: int|
                    0 <= i < n && !flags@[i] ==> #[trigger] self.module_at(i) == r0.module_at(i),
                forall|t2: int|
                    0 <= t2 < records.len() ==> self.module_at((#[trigger] records[t2]).idx)
                        == record_stepped(r0, st, records[t2]),
                forall|i: int| 0 <= i < n && r0.is_source_at(i) ==> flags@[i],
                sources_recorded(r0, st, self.outs@),
            decreases 2 * (n - count_true(flags@)) + (if all_sources_present(
                self.patches@,
                self.outs@,
            ) {
                0int
            } else {
                1int
            }),
        {
            let ghost outs_entry = self.outs@;
            let ghost count_entry = count_true(flags@);
            let ghost entry_all_present = all_sources_present(self.patches@, self.outs@);
            let mut moved: usize = 0;
            let mut idx2: usize = 0;
            while idx2 < n
                invariant
                    self.wf(),
                    r0.wf(),
                    forall|i: int, j: int|
                        0 <= i < j < r0.ids().len() ==> r0.ids()[i] != r0.ids()[j],
                    n == self.n(),
                    self.ids() == r0.ids(),
                    r0.same_shape(*self),
                    self.patches@ == r0.patches@,
                    flags@.len() == n,
                    0 <= idx2 <= n,
                    stepped_count == count_true(flags@),
                    flags_trace_sync(n as int, flags@, records),
                    trace_chain_wf(r0, st, records),
                    cache_extends(r0.patches@, last_cache(r0, st, records), self.outs@),
                    forall|i: int|
                        0 <= i < n && !flags@[i] ==> #[trigger] self.module_at(i) == r0.module_at(
                            i,
                        ),
                    forall|t2: int|
                        0 <= t2 < records.len() ==> self.module_at((#[trigger] records[t2]).idx)
                            == record_stepped(r0, st, records[t2]),
                    0 <= count_entry,
                    count_true(flags@) == count_entry + moved,
                    count_true(flags@) <= n,
                    forall|k: ModuleKey|
                        outs_entry.contains_key(k) ==> #[trigger] self.outs@.contains_key(k),
                    entry_all_present == all_sources_present(self.patches@, outs_entry),
                    entry_all_present ==> forall|i: int| 0 <= i < idx2 ==> flags@[i],
                    forall|i: int| 0 <= i < n && r0.is_source_at(i) ==> flags@[i],
                    sources_recorded(r0, st, self.outs@),
                decreases n - idx2,
            {
                if !flags[idx2] {
                    let id_m = self.modules[idx2].0;
                    if inbound_present(&self.patches, &self.outs, id_m) {
                        let n_ins = self.modules[idx2].1.inputs();
                        let ins = build_inputs(&self.patches, &self.outs, id_m, n_ins);
                        let ghost rec = StepRecord {
                            idx: idx2 as int,
                            cache: self.outs@,
                            ins: ins@,
                        };
                        proof {
                            assert(self.ids()[idx2 as int] == self.id_at(idx2 as int));
                            assert(r0.ids()[idx2 as int] == r0.id_at(idx2 as int));
                            assert(id_m == r0.id_at(idx2 as int));
                            assert(self.module_at(idx2 as int) == r0.module_at(idx2 as int));
                            assert(!r0.is_source_at(idx2 as int));
                            assert(rec.ins =~= Seq::new(
                                r0.module_at(rec.idx).spec_inputs() as nat,
                                |i: int| delivered(
                                    r0.patches@,
                                    rec.cache,
                                    r0.id_at(rec.idx),
                                    i as usize,
                                ),
                            ));
                            assert(record_ins_ok(r0, rec));
                            lemma_trace_step(n as int, flags@, records, rec);
                        }
                        let ghost self_before = *self;
                        self.run_module_at(idx2, time, st, &ins, true);
                        proof {
                            lemma_same_shape_trans(r0, self_before, *self);
                            assert(self_before.id_at(idx2 as int) == id_m);
                            assert(pre_step_state(r0, rec) == knobs_applied(
                                self_before.module_at(idx2 as int),
                                self_before.patches@,
                                self_before.outs@,
                                id_m,
                            ));
                            assert(record_out(r0, st, rec) =~= pre_step_state(
                                r0,
                                rec,
                            ).spec_step_out(st, ins@));
                            assert(self.outs@ =~= with_outputs(
                                rec.cache,
                                id_m,
                                record_out(r0, st, rec),
                            ));
                            assert(self.outs@ =~= cache_after(r0, st, rec));
                            assert(self.module_at(idx2 as int) =~= record_stepped(r0, st, rec));
                            // The stepped module was not yet flagged, so it is
                            // no source module: its outputs live under another
                            // id and the source pass's records are untouched.
                            assert forall|i: int, j: usize|
                                0 <= i < r0.n() && r0.is_source_at(i) && (j as int)
                                    < r0.source_out(st, i).len() implies self.outs@.contains_key(
                                #[trigger] out_key(r0.id_at(i), j),
                            ) by {
                                assert(flags@[i]);
                                assert(i != idx2);
                                assert(r0.ids()[i] == r0.id_at(i) && r0.ids()[idx2 as int]
                                    == r0.id_at(idx2 as int));
                                assert(r0.id_at(i) != r0.id_at(idx2 as int));
                                assert(!is_output_key(
                                    out_key(r0.id_at(i), j),
                                    id_m,
                                    self_before.module_at(idx2 as int).spec_outputs() as int,
                                ));
                            }
                            assert forall|i: int, j: usize|
                                0 <= i < r0.n() && r0.is_source_at(i) && (j as int)
                                    < r0.source_out(st, i).len() && self.outs@.contains_key(
                                out_key(r0.id_at(i), j),
                            ) implies self.outs@[#[trigger] out_key(r0.id_at(i), j)] == r0.source_out(
                                st,
                                i,
                            )[j as int] by {
                                assert(flags@[i]);
                                assert(i != idx2);
                                assert(r0.ids()[i] == r0.id_at(i) && r0.ids()[idx2 as int]
                                    == r0.id_at(idx2 as int));
                                assert(r0.id_at(i) != r0.id_at(idx2 as int));
                                assert(!is_output_key(
                                    out_key(r0.id_at(i), j),
                                    id_m,
                                    self_before.module_at(idx2 as int).spec_outputs() as int,
                                ));
                            }
                            let ghost records1 = records.push(rec);
                            assert(forall|t2: int|
                                0 <= t2 < records.len() ==> records1[t2] == records[t2]);
                            assert(records1.last() == rec);
                            assert forall|t1: int, t2: int|
                                #![trigger records1[t1], records1[t2]]
                                0 <= t1 < t2 < records1.len() && r0.is_source_at(
                                    records1[t2].idx,
                                ) implies r0.is_source_at(records1[t1].idx) by {
                                if t2 == records.len() {
                                    assert(!r0.is_source_at(rec.idx));
                                }
                            }
                            assert(trace_chain_wf(r0, st, records1));
                            assert(cache_extends(
                                r0.patches@,
                                last_cache(r0, st, records1),
                                self.outs@,
                            ));
                            assert forall|t2: int| 0 <= t2 < records1.len() implies self.module_at(
                                (#[trigger] records1[t2]).idx,
                            ) == record_stepped(r0, st, records1[t2]) by {
                                if t2 < records.len() {
                                    assert(flags@[records[t2].idx]);
                                    assert(records[t2].idx != idx2);
                                }
                            }
                            records = records1;
                        }
                        flags[idx2] = true;
                        proof {
                            lemma_count_true_bounds(flags@);
                        }
                        moved = moved + 1;
                        stepped_count = stepped_count + 1;
                    } else {
                        proof {
                            // The cache only grows within a tick, so had every
                            // source been present when the scan began, this
                            // module would be ready now.
                            if entry_all_present {
                                assert forall|i: int|
                                    0 <= i < self.patches@.len() && (#[trigger] self.patches@[i]).dst.id
                                        == id_m implies self.outs@.contains_key(
                                    self.patches@[i].src,
                                ) by {
                                    assert(outs_entry.contains_key(self.patches@[i].src));
                                }
                                assert(inbound_ready(self.patches@, self.outs@, id_m));
                                assert(false);
                            }
                        }
                    }
                }
                idx2 = idx2 + 1;
            }
            if moved == 0 {
                proof {
                    lemma_count_true_bounds(flags@);
                    if entry_all_present {
                        lemma_count_true_all_true(flags@);
                        assert(false);
                    }
                }
                let ghost pre_fill = *self;
                fill_missing_sources(&self.patches, &mut self.outs);
                proof {
                    lemma_outs_change_wf(pre_fill, *self);
                    lemma_same_shape_trans(r0, pre_fill, *self);
                    assert(cache_extends(r0.patches@, pre_fill.outs@, self.outs@));
                    lemma_cache_extends_trans(
                        r0.patches@,
                        last_cache(r0, st, records),
                        pre_fill.outs@,
                        self.outs@,
                    );
                }
            }
        }
        proof {
            lemma_count_true_bounds(flags@);
            lemma_count_true_full(flags@);
            assert forall|i: int| 0 <= i < n implies has_record(records, i) by {
                assert(flags@[i]);
            }
        }
        let ghost settled = self.outs@;

        // Knob feedback: visible to each knob's owner from its next step.
        let mut idx3: usize = 0;
        while idx3 < n
            invariant
                self.wf(),
                r0.wf(),
                n == self.n(),
                self.ids() == r0.ids(),
                r0.same_shape(*self),
                self.patches@ == r0.patches@,
                0 <= idx3 <= n,
                self.outs@ == settled,
                records.len() == n,
                trace_chain_wf(r0, st, records),
                cache_extends(r0.patches@, last_cache(r0, st, records), settled),
                forall|i: int| 0 <= i < n ==> has_record(records, i),
                forall|t2: int|
                    0 <= t2 < records.len() && (#[trigger] records[t2]).idx < idx3
                        ==> self.module_at(records[t2].idx) == knobs_applied(
                        record_stepped(r0, st, records[t2]),
                        r0.patches@,
                        settled,
                        r0.id_at(records[t2].idx),
                    ),
                forall|t2: int|
                    0 <= t2 < records.len() && (#[trigger] records[t2]).idx >= idx3
                        ==> self.module_at(records[t2].idx) == record_stepped(r0, st, records[t2]),
                sources_recorded(r0, st, self.outs@),
            decreases n - idx3,
        {
            let ghost self_before = *self;
            self.knob_feedback_at(idx3);
            proof {
                lemma_same_shape_trans(r0, self_before, *self);
                assert(self_before.ids()[idx3 as int] == self_before.id_at(idx3 as int));
                assert(r0.ids()[idx3 as int] == r0.id_at(idx3 as int));
                assert(self_before.id_at(idx3 as int) == r0.id_at(idx3 as int));
                assert forall|t2: int|
                    0 <= t2 < records.len() && (#[trigger] records[t2]).idx < idx3 + 1 implies
                    self.module_at(records[t2].idx) == knobs_applied(
                    record_stepped(r0, st, records[t2]),
                    r0.patches@,
                    settled,
                    r0.id_at(records[t2].idx),
                ) by {
                    if records[t2].idx == idx3 {
                        assert(self_before.module_at(idx3 as int) == record_stepped(
                            r0,
                            st,
                            records[t2],
                        ));
                    } else {
                        assert(self.module_at(records[t2].idx) == self_before.module_at(
                            records[t2].idx,
                        ));
                    }
                }
                assert forall|t2: int|
                    0 <= t2 < records.len() && (#[trigger] records[t2]).idx >= idx3 + 1 implies
                    self.module_at(records[t2].idx) == record_stepped(r0, st, records[t2]) by {
                    assert(self.module_at(records[t2].idx) == self_before.module_at(
                        records[t2].idx,
                    ));
                }
            }
            idx3 = idx3 + 1;
        }

        // Purge the NaN placeholders; real values persist into next tick.
        let ghost pre_purge = *self;
        self.outs.purge_nan();
        proof {
            lemma_outs_change_wf(pre_purge, *self);
            lemma_same_shape_trans(r0, pre_purge, *self);
            assert forall|i: int, j: usize|
                0 <= i < r0.n() && r0.is_source_at(i) && (j as int) < r0.source_out(st, i).len()
                    && !r0.source_out(st, i)[j as int].spec_is_nan() implies self.outs@.contains_key(
                #[trigger] out_key(r0.id_at(i), j),
            ) && self.outs@[out_key(r0.id_at(i), j)] == r0.source_out(st, i)[j as int] by {
                assert(pre_purge.outs@.contains_key(out_key(r0.id_at(i), j)));
                assert(pre_purge.outs@[out_key(r0.id_at(i), j)] == r0.source_out(st, i)[j as int]);
            }
        }
        Ghost(TickTrace { records, settled })
    }

    /// Drain every module's audio buffer, in module order: entry `i` of
    /// the result holds the stereo frames buffered by the module at
    /// position `i`, which forgets them.
    pub fn drain_audio_buffers(&mut self) -> (frames: Vec<Vec<Frame>>)
        requires
            old(self).wf(),
        ensures
            final(self).wf(),
            old(self).same_shape(*final(self)),
            final(self).ids() == old(self).ids(),
            final(self).patches@ == old(self).patches@,
            final(self).outs == old(self).outs,
            frames@.len() == old(self).n(),
            forall|i: int|
                0 <= i < old(self).n() ==> (#[trigger] frames@[i])@ == old(self).module_at(
                    i,
                ).spec_drain_frames(),
            forall|i: int|
                0 <= i < old(self).n() ==> #[trigger] final(self).module_at(i) == old(
                    self,
                ).module_at(i).spec_drained(),
    {
        let ghost r0 = *old(self);
        let n = self.modules.len();
        let mut frames: Vec<Vec<Frame>> = Vec::new();
        let mut idx: usize = 0;
        while idx < n
            invariant
                self.wf(),
                r0.wf(),
                n == self.n(),
                self.ids() == r0.ids(),
                r0.same_shape(*self),
                self.patches@ == r0.patches@,
                self.outs == r0.outs,
                0 <= idx <= n,
                frames@.len() == idx,
                forall|i: int|
                    0 <= i < idx ==> (#[trigger] frames@[i])@ == r0.module_at(
                        i,
                    ).spec_drain_frames(),
                forall|i: int|
                    0 <= i < idx ==> #[trigger] self.module_at(i) == r0.module_at(
                        i,
                    ).spec_drained(),
                forall|i: int| idx <= i < n ==> #[trigger] self.module_at(i) == r0.module_at(i),
            decreases n - idx,
        {
            let ghost s1 = *self;
            let mut pair = self.modules.remove(idx);
            let f = pair.1.drain_audio_buffer();
            self.modules.insert(idx, pair);
            frames.push(f);
            proof {
                assert(self.modules@ =~= s1.modules@.update(
                    idx as int,
                    self.modules@[idx as int],
                ));
                s1.module_at(idx as int).lemma_arity_stable(
                    StepType::Key,
                    Seq::empty(),
                    0,
                    Sample { bits: 0 },
                    Seq::empty(),
                );
                lemma_module_update_wf(s1, *self, idx as int);
                lemma_same_shape_trans(r0, s1, *self);
            }
            idx = idx + 1;
        }
        frames
    }

    /// Hand captured input samples to every module, to be replayed by
    /// the audio-in kinds from their next steps on.
    pub fn extend_audio_inputs(&mut self, ai: &Vec<Sample>)
        requires
            old(self).wf(),
        ensures
            final(self).wf(),
            old(self).same_shape(*final(self)),
            final(self).ids() == old(self).ids(),
            final(self).patches@ == old(self).patches@,
            final(self).outs == old(self).outs,
            forall|i: int|
                0 <= i < old(self).n() ==> #[trigger] final(self).module_at(i) == old(
                    self,
                ).module_at(i).spec_extended(ai@),
    {
        let ghost r0 = *old(self);
        let n = self.modules.len();
        let mut idx: usize = 0;
        while idx < n
            invariant
                self.wf(),
                r0.wf(),
                n == self.n(),
                self.ids() == r0.ids(),
                r0.same_shape(*self),
                self.patches@ == r0.patches@,
                self.outs == r0.outs,
                0 <= idx <= n,
                forall|i: int|
                    0 <= i < idx ==> #[trigger] self.module_at(i) == r0.module_at(
                        i,
                    ).spec_extended(ai@),
                forall|i: int| idx <= i < n ==> #[trigger] self.module_at(i) == r0.module_at(i),
            decreases n - idx,
        {
            let ghost s1 = *self;
            let mut pair = self.modules.remove(idx);
            pair.1.extend_audio_buffer(ai);
            self.modules.insert(idx, pair);
            proof {
                assert(self.modules@ =~= s1.modules@.update(
                    idx as int,
                    self.modules@[idx as int],
                ));
                s1.module_at(idx as int).lemma_arity_stable(
                    StepType::Key,
                    Seq::empty(),
                    0,
                    Sample { bits: 0 },
                    ai@,
                );
                lemma_module_update_wf(s1, *self, idx as int);
                lemma_same_shape_trans(r0, s1, *self);
            }
            idx = idx + 1;
        }
    }

    /// Tear the rack down, as on exit or before a reload: run every
    /// module's exit hook and clear the output cache, all or nothing.
    /// (Dropping the audio device context is the embedder's part.)
    pub fn exit(&mut self)
        requires
            old(self).wf(),
        ensures
            final(self).wf(),
            old(self).same_shape(*final(self)),
            final(self).ids() == old(self).ids(),
            final(self).patches@ == old(self).patches@,
            final(self).outs@ =~= Map::<ModuleKey, Sample>::empty(),
            forall|i: int|
                0 <= i < old(self).n() ==> #[trigger] final(self).module_at(i) == old(
                    self,
                ).module_at(i).spec_exited(),
    {
        let ghost r0 = *old(self);
        let n = self.modules.len();
        let mut idx: usize = 0;
        while idx < n
            invariant
                self.wf(),
                r0.wf(),
                n == self.n(),
                self.ids() == r0.ids(),
                r0.same_shape(*self),
                self.patches@ == r0.patches@,
                0 <= idx <= n,
                forall|i: int|
                    0 <= i < idx ==> #[trigger] self.module_at(i) == r0.module_at(i).spec_exited(),
                forall|i: int| idx <= i < n ==> #[trigger] self.module_at(i) == r0.module_at(i),
            decreases n - idx,
        {
            let ghost s1 = *self;
            let mut pair = self.modules.remove(idx);
            pair.1.exit();
            self.modules.insert(idx, pair);
            proof {
                assert(self.modules@ =~= s1.modules@.update(
                    idx as int,
                    self.modules@[idx as int],
                ));
                s1.module_at(idx as int).lemma_arity_stable(
                    StepType::Key,
                    Seq::empty(),
                    0,
                    Sample { bits: 0 },
                    Seq::empty(),
                );
                lemma_module_update_wf(s1, *self, idx as int);
                lemma_same_shape_trans(r0, s1, *self);
            }
            idx = idx + 1;
        }
        let ghost pre_clear = *self;
        self.outs.clear();
        proof {
            lemma_outs_change_wf(pre_clear, *self);
            lemma_same_shape_trans(r0, pre_clear, *self);
        }
    }

    /// Add a module under id `id`; the id must be new.
    pub fn add_module(&mut self, id: usize, m: Module) -> (r: Result<(), RackError>)
        requires
            old(self).wf(),
        ensures
            final(self).wf(),
            match r {
                Ok(()) => {
                    &&& !old(self).has_id(id)
                    &&& final(self).modules@ =~= old(self).modules@.push((id, m))
                    &&& final(self).patches@ == old(self).patches@
                    &&& final(self).outs@ == old(self).outs@
                },
                Err(e) => {
                    &&& e == RackError::DuplicateId
                    &&& old(self).has_id(id)
                    &&& *final(self) == *old(self)
                },
            },
    {
        match self.find_index(id) {
            Some(_) => Err(RackError::DuplicateId),
            None => {
                self.modules.push((id, m));
                proof {
                    lemma_push_keeps_wf(*old(self), *self, id);
                }
                Ok(())
            },
        }
    }

    /// Add a patch from output port `src` to input or knob port `dst`.
    /// The endpoints must exist; checks run source module, source port,
    /// destination module, destination port, in that order.
    #[verifier::spinoff_prover]
    #[verifier::rlimit(60)]
    pub fn add_patch(&mut self, src: ModuleKey, dst: ModuleKey) -> (r: Result<(), RackError>)
        requires
            old(self).wf(),
        ensures
            final(self).wf(),
            final(self).modules@ == old(self).modules@,
            final(self).outs@ == old(self).outs@,
            match r {
                Ok(()) => {
                    &&& old(self).patch_wf(Patch { src, dst })
                    &&& final(self).patches@ =~= if old(self).patches@.contains(
                        Patch { src, dst },
                    ) {
                        old(self).patches@
                    } else {
                        old(self).patches@.push(Patch { src, dst })
                    }
                },
                Err(e) => final(self).patches@ == old(self).patches@ && old(
                    self,
                ).spec_patch_error(src, dst, e),
            },
    {
        match self.find_index(src.id) {
            Some(i) => {
                let m = &self.modules[i].1;
                let src_ok = match src.iok {
                    ModuleIOK::Output(o) => o < m.outputs(),
                    _ => false,
                };
                if !src_ok {
                    return Err(RackError::SourceNotOutput);
                }
            },
            None => {
                return Err(RackError::UnknownSourceModule);
            },
        }
        match self.find_index(dst.id) {
            Some(i) => {
                let m = &self.modules[i].1;
                let dst_ok = match dst.iok {
                    ModuleIOK::Input(ii) => ii < m.inputs(),
                    ModuleIOK::Knob(k) => k < m.knobs(),
                    _ => false,
                };
                if !dst_ok {
                    return Err(RackError::DestinationNotInputOrKnob);
                }
            },
            None => {
                return Err(RackError::UnknownDestinationModule);
            },
        }
        proof {
            assert(self.patch_wf(Patch { src, dst }));
        }
        self.patches.insert(src, dst);
        proof {
            assert(self.modules@ == old(self).modules@);
            assert forall|i: int, j: int| 0 <= i < j < self.n() implies self.id_at(i)
                != self.id_at(j) by {
                assert(old(self).id_at(i) != old(self).id_at(j));
            }
            assert(forall|i: int|
                0 <= i < self.patches@.len() ==> old(self).patch_wf(#[trigger] self.patches@[i]));
            assert forall|i: int| 0 <= i < self.patches@.len() implies self.patch_wf(
                #[trigger] self.patches@[i],
            ) by {
                lemma_patch_wf_same_shape(*old(self), *self, self.patches@[i]);
            }
        }
        Ok(())
    }

    /// Load one patch from its textual addresses, as a rack
    /// configuration writes them; a malformed address or a bad endpoint
    /// is a load-time error, reported for the offending key.
    pub fn add_patch_by_address(&mut self, src: &str, dst: &str) -> (r: Result<
        (),
        PatchLoadError,
    >)
        requires
            old(self).wf(),
        ensures
            final(self).wf(),
            final(self).modules@ == old(self).modules@,
            final(self).outs@ == old(self).outs@,
            match r {
                Ok(()) => (spec_parse_key(src.spec_bytes()) matches Ok(sk)
                    && spec_parse_key(dst.spec_bytes()) matches Ok(dk) && old(self).patch_wf(
                    Patch { src: sk, dst: dk },
                ) && final(self).patches@ =~= (if old(self).patches@.contains(
                    Patch { src: sk, dst: dk },
                ) {
                    old(self).patches@
                } else {
                    old(self).patches@.push(Patch { src: sk, dst: dk })
                })),
                Err(e) => final(self).patches@ == old(self).patches@ && match e {
                    PatchLoadError::BadSourceAddress(ae) => spec_parse_key(src.spec_bytes())
                        == Err::<ModuleKey, AddressError>(ae),
                    PatchLoadError::BadDestinationAddress(ae) => spec_parse_key(src.spec_bytes()) is Ok
                        && spec_parse_key(dst.spec_bytes()) == Err::<ModuleKey, AddressError>(ae),
                    PatchLoadError::BadEndpoints(re) => (spec_parse_key(src.spec_bytes()) matches Ok(sk)
                        && spec_parse_key(dst.spec_bytes()) matches Ok(dk) && old(
                        self,
                    ).spec_patch_error(sk, dk, re)),
                },
            },
    {
        let sk = match parse_module_key(src) {
            Ok(k) => k,
            Err(ae) => {
                return Err(PatchLoadError::BadSourceAddress(ae));
            },
        };
        let dk = match parse_module_key(dst) {
            Ok(k) => k,
            Err(ae) => {
                return Err(PatchLoadError::BadDestinationAddress(ae));
            },
        };
        match self.add_patch(sk, dk) {
            Ok(()) => Ok(()),
            Err(re) => Err(PatchLoadError::BadEndpoints(re)),
        }
    }
}

/// How many entries of `s` are true.
pub open spec fn count_true(s: Seq<bool>) -> int
    decreases s.len(),
{
    if s.len() == 0 {
        0
    } else {
        count_true(s.drop_last()) + if s.last() {
            1int
        } else {
            0int
        }
    }
}

proof fn lemma_count_true_bounds(s: Seq<bool>)
    ensures
        0 <= count_true(s) <= s.len(),
    decreases s.len(),
{
    if s.len() > 0 {
        lemma_count_true_bounds(s.drop_last());
    }
}

proof fn lemma_count_true_update(s: Seq<bool>, i: int)
    requires
        0 <= i < s.len(),
        !s[i],
    ensures
        count_true(s.update(i, true)) == count_true(s) + 1,
    decreases s.len(),
{
    let t = s.update(i, true);
    if i == s.len() - 1 {
        assert(t.drop_last() =~= s.drop_last());
    } else {
        lemma_count_true_update(s.drop_last(), i);
        assert(t.drop_last() =~= s.drop_last().update(i, true));
        assert(t.last() == s.last());
    }
}

proof fn lemma_count_true_full(s: Seq<bool>)
    requires
        count_true(s) == s.len(),
    ensures
        forall|i: int| 0 <= i < s.len() ==> s[i],
    decreases s.len(),
{
    if s.len() > 0 {
        lemma_count_true_bounds(s.drop_last());
        assert(s.last());
        lemma_count_true_full(s.drop_last());
        assert forall|i: int| 0 <= i < s.len() implies s[i] by {
            if i < s.len() - 1 {
                assert(s.drop_last()[i]);
            }
        }
    }
}

proof fn lemma_count_true_all_false(s: Seq<bool>)
    requires
        forall|i: int| 0 <= i < s.len() ==> !s[i],
    ensures
        count_true(s) == 0,
    decreases s.len(),
{
    if s.len() > 0 {
        assert(!s[s.len() - 1]);
        assert(forall|i: int| 0 <= i < s.drop_last().len() ==> !s.drop_last()[i]);
        lemma_count_true_all_false(s.drop_last());
    }
}

/// Applying knob patches never changes a module's arity.
proof fn lemma_knobs_applied_arity(mv: ModuleV, edges: Seq<Patch>, m: Map<ModuleKey, Sample>, id: usize)
    ensures
        knobs_applied(mv, edges, m, id).spec_inputs() == mv.spec_inputs(),
        knobs_applied(mv, edges, m, id).spec_outputs() == mv.spec_outputs(),
        knobs_applied(mv, edges, m, id).spec_knobs() == mv.spec_knobs(),
    decreases edges.len(),
{
    if edges.len() > 0 {
        lemma_knobs_applied_arity(mv, edges.drop_last(), m, id);
    }
}

proof fn lemma_count_true_all_true(s: Seq<bool>)
    requires
        forall|i: int| 0 <= i < s.len() ==> s[i],
    ensures
        count_true(s) == s.len(),
    decreases s.len(),
{
    if s.len() > 0 {
        assert(forall|i: int| 0 <= i < s.drop_last().len() ==> s.drop_last()[i]);
        lemma_count_true_all_true(s.drop_last());
    }
}

/// Same shape is transitive.
proof fn lemma_same_shape_trans(a: Rack, b: Rack, c: Rack)
    requires
        a.same_shape(b),
        b.same_shape(c),
    ensures
        a.same_shape(c),
{
    assert forall|i: int| 0 <= i < a.n() implies a.id_at(i) == #[trigger] c.id_at(i) by {
        assert(a.id_at(i) == b.id_at(i));
    }
    assert forall|i: int|
        0 <= i < a.n() implies (#[trigger] a.module_at(i)).spec_inputs() == c.module_at(
            i,
        ).spec_inputs() && a.module_at(i).spec_outputs() == c.module_at(i).spec_outputs()
            && a.module_at(i).spec_knobs() == c.module_at(i).spec_knobs() by {
        assert(b.module_at(i).spec_inputs() == c.module_at(i).spec_inputs());
    }
}

/// Replacing the module at one position by one of equal id and arity,
/// everything else unchanged, preserves well-formedness.
proof fn lemma_module_update_wf(r1: Rack, r2: Rack, idx: int)
    requires
        r1.wf(),
        0 <= idx < r1.n(),
        r2.modules@.len() == r1.modules@.len(),
        forall|i: int| 0 <= i < r1.n() && i != idx ==> r2.modules@[i] == r1.modules@[i],
        r2.modules@[idx].0 == r1.modules@[idx].0,
        r2.module_at(idx).spec_inputs() == r1.module_at(idx).spec_inputs(),
        r2.module_at(idx).spec_outputs() == r1.module_at(idx).spec_outputs(),
        r2.module_at(idx).spec_knobs() == r1.module_at(idx).spec_knobs(),
        r2.patches@ == r1.patches@,
        r2.outs == r1.outs,
    ensures
        r2.wf(),
        r1.same_shape(r2),
        r2.ids() == r1.ids(),
{
    assert forall|i: int| 0 <= i < r1.ids().len() implies r1.ids()[i] == r2.ids()[i] by {
        assert(r1.id_at(i) == r2.id_at(i));
    }
    assert(r2.ids() =~= r1.ids());
    assert(r1.same_shape(r2));
    assert forall|i: int, j: int| 0 <= i < j < r2.n() implies r2.id_at(i) != r2.id_at(j) by {
        assert(r1.id_at(i) != r1.id_at(j));
    }
    assert forall|i: int| 0 <= i < r2.patches@.len() implies r2.patch_wf(
        #[trigger] r2.patches@[i],
    ) by {
        lemma_patch_wf_same_shape(r1, r2, r2.patches@[i]);
    }
}

/// A change of the output cache alone leaves the rack well-formed.
proof fn lemma_outs_change_wf(b: Rack, c: Rack)
    requires
        b.wf(),
        c.modules@ == b.modules@,
        c.patches@ == b.patches@,
        c.outs.wf(),
    ensures
        c.wf(),
        b.same_shape(c),
        c.ids() == b.ids(),
{
    assert forall|i: int| 0 <= i < b.ids().len() implies b.ids()[i] == c.ids()[i] by {
        assert(b.id_at(i) == c.id_at(i));
    }
    assert(c.ids() =~= b.ids());
    assert forall|i: int|
        0 <= i < b.n() implies (#[trigger] b.module_at(i)).spec_inputs() == c.module_at(
            i,
        ).spec_inputs() && b.module_at(i).spec_outputs() == c.module_at(i).spec_outputs()
            && b.module_at(i).spec_knobs() == c.module_at(i).spec_knobs() by {
        assert(c.module_at(i) == b.module_at(i));
    }
    assert(b.same_shape(c));
    assert forall|i: int, j: int| 0 <= i < j < c.n() implies c.id_at(i) != c.id_at(j) by {
        assert(b.id_at(i) != b.id_at(j));
    }
    assert forall|i: int| 0 <= i < c.patches@.len() implies c.patch_wf(
        #[trigger] c.patches@[i],
    ) by {
        lemma_patch_wf_same_shape(b, c, c.patches@[i]);
    }
}

/// If no patch leads into a knob of module `id`, applying knob patches
/// changes nothing.
proof fn lemma_knobs_applied_no_knob(
    mv: ModuleV,
    edges: Seq<Patch>,
    m: Map<ModuleKey, Sample>,
    id: usize,
)
    requires
        forall|i: int|
            0 <= i < edges.len() ==> !((#[trigger] edges[i]).dst.id == id && edges[i].dst.iok is Knob),
    ensures
        knobs_applied(mv, edges, m, id) == mv,
    decreases edges.len(),
{
    if edges.len() > 0 {
        assert(forall|i: int|
            0 <= i < edges.drop_last().len() ==> !((#[trigger] edges.drop_last()[i]).dst.id == id
                && edges.drop_last()[i].dst.iok is Knob));
        lemma_knobs_applied_no_knob(mv, edges.drop_last(), m, id);
        assert(edges[edges.len() - 1] == edges.last());
    }
}

/// A knob fed from exactly one patch, whose source value is cached and
/// not NaN, ends the knob-feedback pass holding exactly that value.
pub proof fn lemma_knob_feedback(
    mv: ModuleV,
    edges: Seq<Patch>,
    m: Map<ModuleKey, Sample>,
    id: usize,
    j: int,
    k: usize,
)
    requires
        0 <= j < edges.len(),
        edges[j].dst.id == id,
        edges[j].dst.iok == ModuleIOK::Knob(k),
        k < mv.spec_knobs(),
        m.contains_key(edges[j].src),
        !m[edges[j].src].spec_is_nan(),
        forall|i: int|
            0 <= i < edges.len() && i != j ==> !((#[trigger] edges[i]).dst.id == id
                && edges[i].dst.iok is Knob),
    ensures
        knobs_applied(mv, edges, m, id).spec_get_knobs()[k as int] == m[edges[j].src],
    decreases edges.len(),
{
    lemma_knobs_applied_arity(mv, edges.drop_last(), m, id);
    if j == edges.len() - 1 {
        assert(forall|i: int|
            0 <= i < edges.drop_last().len() ==> !((#[trigger] edges.drop_last()[i]).dst.id == id
                && edges.drop_last()[i].dst.iok is Knob));
        lemma_knobs_applied_no_knob(mv, edges.drop_last(), m, id);
        assert(edges.last() == edges[j]);
    } else {
        assert(edges.drop_last()[j] == edges[j]);
        assert(forall|i: int|
            0 <= i < edges.drop_last().len() && i != j ==> !((#[trigger] edges.drop_last()[i]).dst.id
                == id && edges.drop_last()[i].dst.iok is Knob));
        lemma_knob_feedback(mv, edges.drop_last(), m, id, j, k);
        assert(edges[edges.len() - 1] == edges.last());
        assert(!(edges.last().dst.id == id && edges.last().dst.iok is Knob));
    }
}

/// A well-formed patch stays well-formed in a rack of the same shape.
proof fn lemma_patch_wf_same_shape(r1: Rack, r2: Rack, p: Patch)
    requires
        r1.patch_wf(p),
        r1.same_shape(r2),
    ensures
        r2.patch_wf(p),
{
    lemma_index_of_same(r1, r2, p.src.id);
    lemma_index_of_same(r1, r2, p.dst.id);
}

/// Racks of the same shape find each id at the same position.
proof fn lemma_index_of_same(r1: Rack, r2: Rack, id: usize)
    requires
        r1.same_shape(r2),
        r1.has_id(id),
    ensures
        r2.has_id(id),
        r2.idx_of(id) == r1.idx_of(id),
        0 <= r1.idx_of(id) < r1.n(),
        r1.id_at(r1.idx_of(id)) == id,
{
    assert forall|i: int| 0 <= i < r1.ids().len() implies r1.ids()[i] == r2.ids()[i] by {
        assert(r1.ids()[i] == r1.id_at(i));
        assert(r2.ids()[i] == r2.id_at(i));
    }
    assert(r1.ids() =~= r2.ids());
    let w = r1.idx_of(id);
    assert(0 <= w < r1.n() && r1.ids()[w] == id);
}

/// Adding a module with a fresh id preserves rack well-formedness.
proof fn lemma_push_keeps_wf(r: Rack, m2: Rack, id: usize)
    requires
        r.wf(),
        !r.has_id(id),
        m2.modules@.len() == r.n() + 1,
        forall|i: int| 0 <= i < r.n() ==> m2.modules@[i] == r.modules@[i],
        m2.modules@[r.n()].0 == id,
        m2.patches@ == r.patches@,
        m2.outs == r.outs,
    ensures
        m2.wf(),
{
    assert(forall|i: int| 0 <= i < r.n() ==> m2.id_at(i) == r.id_at(i));
    assert forall|i: int, j: int| 0 <= i < j < m2.n() implies m2.id_at(i) != m2.id_at(j) by {
        if j < r.n() {
        } else {
            assert(m2.id_at(j) == id);
            if m2.id_at(i) == id {
                assert(r.ids()[i] == id);
            }
        }
    }
    assert forall|i: int| 0 <= i < m2.patches@.len() implies m2.patch_wf(
        #[trigger] m2.patches@[i],
    ) by {
        let p = m2.patches@[i];
        assert(r.patch_wf(p));
        assert(p.src.id != id && p.dst.id != id);
        lemma_wf_id_lookup_push(r, m2, p.src.id);
        lemma_wf_id_lookup_push(r, m2, p.dst.id);
    }
}

/// Looking up an existing id is unchanged by appending one fresh module.
proof fn lemma_wf_id_lookup_push(r: Rack, m2: Rack, id: usize)
    requires
        r.ids_unique(),
        r.has_id(id),
        m2.n() == r.n() + 1,
        forall|i: int| 0 <= i < r.n() ==> m2.modules@[i] == r.modules@[i],
        m2.id_at(r.n()) != id,
    ensures
        m2.has_id(id),
        m2.module_of(id) == r.module_of(id),
{
    let w1 = r.idx_of(id);
    assert(0 <= w1 < r.n() && r.ids()[w1] == id);
    assert(m2.ids()[w1] == id);
    assert(exists|j: int| 0 <= j < m2.ids().len() && m2.ids()[j] == id);
    let w2 = m2.idx_of(id);
    assert(0 <= w2 < m2.n() && m2.ids()[w2] == id);
    if w2 < r.n() {
        assert(m2.module_at(w2) == r.module_at(w2));
        assert(r.ids()[w2] == id);
        assert(r.id_at(w1) == id && r.id_at(w2) == id);
        if w1 < w2 {
            assert(r.id_at(w1) != r.id_at(w2));
        } else if w2 < w1 {
            assert(r.id_at(w2) != r.id_at(w1));
        }
        assert(r.module_of(id) == r.module_at(w1));
    } else {
        assert(m2.id_at(w2) == id);
    }
}

} // verus!
