//! Pass declarations and the order the passes run in.
use vstd::prelude::*;

use vstd::set_lib::{lemma_int_range, lemma_len_subset, set_int_range};

use crate::registry::{BufferInfo, TextureInfo};

verus! {

#[derive(Clone, Copy, Debug, PartialEq, Eq, Structural, Hash)]
pub enum PassType {
    Graphics,
    Compute,
    Copy,
}

/// How a pass reads one of its inputs.
#[derive(Clone, Copy, Debug, PartialEq, Eq, Structural, Hash)]
pub enum InputUsage {
    Sampled,
    InputAttachment,
    Storage,
}

#[derive(Clone, Copy, Debug, PartialEq, Eq, Structural, Hash)]
pub enum LoadAction {
    Load,
    Clear,
    DontCare,
}

#[derive(Clone, Copy, Debug, PartialEq, Eq, Structural, Hash)]
pub enum StoreAction {
    Store,
    DontCare,
}

/// A named resource that a pass reads. A history input reads the instance
/// that the previous frame wrote.
pub struct PassInput {
    pub name: String,
    pub usage: InputUsage,
    pub is_history: bool,
}

#[derive(Clone, Copy, Debug, PartialEq, Eq, Structural, Hash)]
pub enum OutputResource {
    Texture(TextureInfo),
    Buffer(BufferInfo),
}

/// A named resource that a pass writes, with what it is made of.
pub struct PassOutput {
    pub name: String,
    pub resource: OutputResource,
    pub has_history: bool,
    pub load_action: LoadAction,
    pub store_action: StoreAction,
}

pub struct PassInfo {
    pub name: String,
    pub pass_type: PassType,
    pub inputs: Vec<PassInput>,
    pub outputs: Vec<PassOutput>,
}

/// The name under which passes write the image that is presented.
pub const BACK_BUFFER_ATTACHMENT_NAME: &'static str = "backbuffer";

pub open spec fn is_back_buffer(name: Seq<char>) -> bool {
    name == BACK_BUFFER_ATTACHMENT_NAME@
}

#[derive(Debug, PartialEq, Eq)]
pub enum ScheduleError {
    /// No remaining pass can run: each of the listed passes reads what
    /// another of them writes.
    Cycle { remaining: Vec<usize> },
    /// The pass loads the presented image, which holds nothing before the
    /// frame.
    BackBufferLoaded { pass: usize },
    /// The pass does not store the presented image.
    BackBufferDiscarded { pass: usize },
}

pub open spec fn produces(pass: PassInfo, name: Seq<char>) -> bool {
    exists|o: int| 0 <= o < pass.outputs@.len() && #[trigger] pass.outputs@[o].name@ == name
}

/// Pass `p` reads, as a current input, something that another pass `q`
/// writes: `q` has to run first.
pub open spec fn depends_on(passes: Seq<PassInfo>, p: int, q: int) -> bool {
    &&& p != q
    &&& exists|x: int|
        0 <= x < passes[p].inputs@.len() && !(#[trigger] passes[p].inputs@[x]).is_history && produces(
            passes[q],
            passes[p].inputs@[x].name@,
        )
}

/// A dependency relation between passes: `dep(p, q)` says that `p` has to
/// run after `q`.
pub open spec fn pass_relation(passes: Seq<PassInfo>) -> spec_fn(int, int) -> bool {
    |p: int, q: int| 0 <= p < passes.len() && 0 <= q < passes.len() && depends_on(passes, p, q)
}

/// The dependency relation of a matrix: `deps[p][q]` says that `p` depends
/// on `q`.
pub open spec fn matrix_relation(deps: Seq<Vec<bool>>) -> spec_fn(int, int) -> bool {
    |p: int, q: int| 0 <= p < deps.len() && 0 <= q < deps.len() && deps[p]@[q]
}

pub open spec fn square(deps: Seq<Vec<bool>>) -> bool {
    forall|p: int| 0 <= p < deps.len() ==> (#[trigger] deps[p])@.len() == deps.len()
}

/// Every dependency of `p` among the `n` passes is already placed.
pub open spec fn ready(dep: spec_fn(int, int) -> bool, n: int, placed: Seq<usize>, p: int) -> bool {
    forall|q: int| 0 <= q < n && #[trigger] dep(p, q) ==> placed.contains(q as usize)
}

/// How recently the latest dependency of `p` was placed: one past its
/// position, or 0 where `p` depends on none of the placed passes.
pub open spec fn recency(dep: spec_fn(int, int) -> bool, placed: Seq<usize>, p: int) -> int
    decreases placed.len(),
{
    if placed.len() == 0 {
        0
    } else if dep(p, placed.last() as int) {
        placed.len() as int
    } else {
        recency(dep, placed.drop_last(), p)
    }
}

/// The pass at position `k` is the one the scheduler picks after the first
/// `k`: it is ready, and among the ready passes not placed yet, its latest
/// dependency lies furthest back; ties go to the lower index.
pub open spec fn greedy_choice(dep: spec_fn(int, int) -> bool, n: int, order: Seq<usize>, k: int) -> bool {
    let placed = order.take(k);
    let c = order[k] as int;
    &&& ready(dep, n, placed, c)
    &&& forall|p: int|
        0 <= p < n && p != c && !placed.contains(p as usize) && #[trigger] ready(dep, n, placed, p)
            ==> recency(dep, placed, c) < recency(dep, placed, p) || (recency(dep, placed, c)
            == recency(dep, placed, p) && c < p)
}

pub open spec fn is_permutation(order: Seq<usize>, n: int) -> bool {
    &&& order.len() == n
    &&& forall|k: int| 0 <= k < n ==> (#[trigger] order[k]) < n
    &&& forall|i: int, j: int| 0 <= i < j < n ==> order[i] != order[j]
    &&& forall|v: int| 0 <= v < n ==> #[trigger] order.contains(v as usize)
}

/// Every pass comes after every pass it depends on.
pub open spec fn respects(dep: spec_fn(int, int) -> bool, n: int, order: Seq<usize>) -> bool {
    forall|k: int, q: int|
        0 <= k < order.len() && 0 <= q < n && #[trigger] dep(order[k] as int, q) ==> exists|j: int|
            0 <= j < k && order[j] == q
}

/// Every listed pass depends on another listed pass, so none of them can
/// ever be placed before all the others it needs.
pub open spec fn closed_cycle(dep: spec_fn(int, int) -> bool, n: int, remaining: Seq<usize>) -> bool {
    &&& remaining.len() > 0
    &&& forall|i: int| 0 <= i < remaining.len() ==> (#[trigger] remaining[i]) < n
    &&& forall|i: int| 0 <= i < remaining.len() ==> depends_on_one_of(dep, remaining[i] as int, remaining)
}

/// Pass `p` depends on one of the listed passes.
pub open spec fn depends_on_one_of(dep: spec_fn(int, int) -> bool, p: int, others: Seq<usize>) -> bool {
    exists|j: int| 0 <= j < others.len() && #[trigger] dep(p, others[j] as int)
}

/// The result of scheduling `n` passes with dependency relation `dep`: an
/// order made of greedy choices, in which every pass follows what it depends
/// on; or the passes that could not be placed, which depend on each other.
pub open spec fn schedule_result(dep: spec_fn(int, int) -> bool, n: int, r: Result<Vec<usize>, ScheduleError>) -> bool {
    match r {
        Ok(order) => {
            &&& is_permutation(order@, n)
            &&& forall|k: int| 0 <= k < order@.len() ==> #[trigger] greedy_choice(dep, n, order@, k)
            &&& respects(dep, n, order@)
        },
        Err(ScheduleError::Cycle { remaining }) => closed_cycle(dep, n, remaining@),
        Err(_) => false,
    }
}

fn is_ready(deps: &Vec<Vec<bool>>, placed: &Vec<bool>, order: &Vec<usize>, p: usize) -> (r: bool)
    requires
        square(deps@),
        p < deps@.len(),
        placed@.len() == deps@.len(),
        forall|q: int| 0 <= q < deps@.len() ==> (placed@[q] <==> order@.contains(q as usize)),
    ensures
        r == ready(matrix_relation(deps@), deps@.len() as int, order@, p as int),
{
    let n = deps.len();
    let mut q: usize = 0;
    while q < n
        invariant
            n == deps@.len(),
            q <= n,
            square(deps@),
            p < n,
            placed@.len() == n,
            forall|t: int| 0 <= t < n ==> (placed@[t] <==> order@.contains(t as usize)),
            forall|t: int| 0 <= t < q && #[trigger] matrix_relation(deps@)(p as int, t) ==> order@.contains(t as usize),
        decreases n - q,
    {
        proof {
            assert(deps@[p as int]@.len() == n);
        }
        if deps[p][q] && !placed[q] {
            proof {
                assert(matrix_relation(deps@)(p as int, q as int));
                assert(!order@.contains(q));
            }
            return false;
        }
        q = q + 1;
    }
    true
}

fn recency_of(deps: &Vec<Vec<bool>>, order: &Vec<usize>, p: usize) -> (r: usize)
    requires
        square(deps@),
        p < deps@.len(),
        forall|k: int| 0 <= k < order@.len() ==> (#[trigger] order@[k]) < deps@.len(),
    ensures
        r == recency(matrix_relation(deps@), order@, p as int),
{
    let mut r: usize = 0;
    let mut k: usize = 0;
    while k < order.len()
        invariant
            k <= order@.len(),
            square(deps@),
            p < deps@.len(),
            forall|t: int| 0 <= t < order@.len() ==> (#[trigger] order@[t]) < deps@.len(),
            r == recency(matrix_relation(deps@), order@.take(k as int), p as int),
        decreases order@.len() - k,
    {
        proof {
            assert(order@.take(k as int + 1).drop_last() =~= order@.take(k as int));
            assert(deps@[p as int]@.len() == deps@.len());
        }
        let q = order[k];
        if deps[p][q] {
            r = k + 1;
        }
        k = k + 1;
    }
    proof {
        assert(order@.take(k as int) =~= order@);
    }
    r
}

/// Orders the passes of a dependency matrix: each step picks a ready pass
/// whose latest dependency was placed furthest back, ties to the lower
/// index. Fails with the passes left over if none of them is ready.
pub fn schedule_order(deps: &Vec<Vec<bool>>) -> (r: Result<Vec<usize>, ScheduleError>)
    requires
        square(deps@),
    ensures
        schedule_result(matrix_relation(deps@), deps@.len() as int, r),
{
    let n = deps.len();
    let ghost dep = matrix_relation(deps@);
    let mut order: Vec<usize> = Vec::new();
    let mut placed: Vec<bool> = Vec::new();
    let mut i: usize = 0;
    while i < n
        invariant
            i <= n,
            placed@.len() == i,
            forall|t: int| 0 <= t < i ==> !placed@[t],
        decreases n - i,
    {
        placed.push(false);
        i = i + 1;
    }
    while order.len() < n
        invariant
            n == deps@.len(),
            dep == matrix_relation(deps@),
            square(deps@),
            placed@.len() == n,
            order@.len() <= n,
            forall|t: int| 0 <= t < n ==> (placed@[t] <==> order@.contains(t as usize)),
            forall|k: int| 0 <= k < order@.len() ==> (#[trigger] order@[k]) < n,
            forall|a: int, b: int| 0 <= a < b < order@.len() ==> order@[a] != order@[b],
            forall|k: int| 0 <= k < order@.len() ==> #[trigger] greedy_choice(dep, n as int, order@, k),
        decreases n - order@.len(),
    {
        let mut best: usize = n;
        let mut best_recency: usize = 0;
        let mut p: usize = 0;
        while p < n
            invariant
                n == deps@.len(),
                dep == matrix_relation(deps@),
                square(deps@),
                placed@.len() == n,
                p <= n,
                forall|t: int| 0 <= t < n ==> (placed@[t] <==> order@.contains(t as usize)),
                forall|k: int| 0 <= k < order@.len() ==> (#[trigger] order@[k]) < n,
                best == n || (best < p && !order@.contains(best) && ready(dep, n as int, order@, best as int)
                    && best_recency == recency(dep, order@, best as int)),
                forall|t: int|
                    0 <= t < p && t != best && !order@.contains(t as usize) && #[trigger] ready(dep, n as int, order@, t)
                        ==> best < n && (best_recency < recency(dep, order@, t) || (best_recency
                        == recency(dep, order@, t) && best < t)),
            decreases n - p,
        {
            if !placed[p] && is_ready(deps, &placed, &order, p) {
                let rec = recency_of(deps, &order, p);
                if best == n || rec < best_recency {
                    best = p;
                    best_recency = rec;
                }
            }
            p = p + 1;
        }
        if best == n {
            let mut remaining: Vec<usize> = Vec::new();
            let mut t: usize = 0;
            while t < n
                invariant
                    n == deps@.len(),
                    dep == matrix_relation(deps@),
                    t <= n,
                    placed@.len() == n,
                    forall|u: int| 0 <= u < n ==> (placed@[u] <==> order@.contains(u as usize)),
                    forall|j: int| 0 <= j < remaining@.len() ==> (#[trigger] remaining@[j]) < t,
                    forall|j: int| 0 <= j < remaining@.len() ==> !order@.contains(#[trigger] remaining@[j]),
                    forall|u: usize| u < t && !order@.contains(u) ==> #[trigger] remaining@.contains(u),
                decreases n - t,
            {
                let ghost old_rem = remaining@;
                if !placed[t] {
                    remaining.push(t);
                }
                proof {
                    assert forall|u: usize| u < t + 1 && !order@.contains(u) implies #[trigger] remaining@.contains(u) by {
                        if u < t {
                            assert(old_rem.contains(u));
                            let j = choose|j: int| 0 <= j < old_rem.len() && old_rem[j] == u;
                            assert(remaining@[j] == u);
                        } else {
                            assert(!placed@[t as int]);
                            assert(remaining@[remaining@.len() - 1] == t);
                        }
                    }
                }
                t = t + 1;
            }
            proof {
                lemma_unplaced_exists(order@, n as int);
                let u = choose|u: int| 0 <= u < n && !(#[trigger] order@.contains(u as usize));
                assert(!order@.contains(u as usize));
                assert(remaining@.contains(u as usize));
                assert forall|a: int| 0 <= a < remaining@.len() implies depends_on_one_of(
                    dep,
                    #[trigger] remaining@[a] as int,
                    remaining@,
                ) by {
                    let x = remaining@[a] as int;
                    assert(remaining@[a] < t);
                    assert(0 <= x < n);
                    assert(!order@.contains(x as usize));
                    assert(x != best as int);
                    assert(!ready(dep, n as int, order@, x));
                    let q = choose|q: int|
                        0 <= q < n && #[trigger] dep(x, q) && !order@.contains(q as usize);
                    assert(remaining@.contains(q as usize));
                    let b = choose|b: int| 0 <= b < remaining@.len() && remaining@[b] == q as usize;
                    assert(dep(remaining@[a] as int, remaining@[b] as int));
                }
                assert(closed_cycle(dep, n as int, remaining@));
            }
            return Err(ScheduleError::Cycle { remaining });
        }
        let ghost before = order@;
        order.push(best);
        placed.set(best, true);
        proof {
            assert(order@.take(before.len() as int) =~= before);
            assert forall|k: int| 0 <= k < order@.len() implies #[trigger] greedy_choice(dep, n as int, order@, k) by {
                if k < before.len() {
                    assert(greedy_choice(dep, n as int, before, k));
                    assert(order@.take(k) =~= before.take(k));
                }
            }
            assert forall|t: int| 0 <= t < n implies (placed@[t] <==> order@.contains(t as usize)) by {
                if t == best as int {
                    assert(order@[before.len() as int] == best);
                } else {
                    if order@.contains(t as usize) {
                        let j = choose|j: int| 0 <= j < order@.len() && order@[j] == t as usize;
                        assert(j < before.len());
                        assert(before.contains(t as usize));
                    }
                    if before.contains(t as usize) {
                        let j = choose|j: int| 0 <= j < before.len() && before[j] == t as usize;
                        assert(order@[j] == t as usize);
                    }
                }
            }
            assert forall|a: int, b: int| 0 <= a < b < order@.len() implies order@[a] != order@[b] by {
                if b == before.len() {
                    if order@[a] == order@[b] {
                        assert(before.contains(best));
                    }
                }
            }
        }
    }
    proof {
        assert forall|k: int, q: int|
            0 <= k < order@.len() && 0 <= q < n && #[trigger] dep(order@[k] as int, q) implies exists|j: int| 0 <= j < k && order@[j] == q by {
            assert(greedy_choice(dep, n as int, order@, k));
            assert(order@.take(k).contains(q as usize));
            let j = choose|j: int| 0 <= j < k && order@.take(k)[j] == q as usize;
            assert(order@[j] == q);
        }
        lemma_order_covers(order@, n as int);
    }
    Ok(order)
}

proof fn lemma_unplaced_exists(order: Seq<usize>, n: int)
    requires
        order.len() < n <= usize::MAX,
        forall|k: int| 0 <= k < order.len() ==> (#[trigger] order[k]) < n,
    ensures
        exists|u: int| 0 <= u < n && !(#[trigger] order.contains(u as usize)),
{
    if forall|u: int| 0 <= u < n ==> #[trigger] order.contains(u as usize) {
        let ints = order.map_values(|v: usize| v as int);
        assert forall|u: int| #[trigger] set_int_range(0, n).contains(u) implies ints.to_set().contains(u) by {
            assert(order.contains(u as usize));
            let j = choose|j: int| 0 <= j < order.len() && order[j] == u as usize;
            assert(ints[j] == u);
        }
        lemma_int_range(0, n);
        ints.lemma_cardinality_of_set();
        lemma_len_subset(set_int_range(0, n), ints.to_set());
    }
}

proof fn lemma_order_covers(order: Seq<usize>, n: int)
    requires
        order.len() == n <= usize::MAX,
        forall|k: int| 0 <= k < order.len() ==> (#[trigger] order[k]) < n,
        forall|a: int, b: int| 0 <= a < b < order.len() ==> order[a] != order[b],
    ensures
        forall|v: int| 0 <= v < n ==> #[trigger] order.contains(v as usize),
{
    assert forall|v: int| 0 <= v < n implies #[trigger] order.contains(v as usize) by {
        if !order.contains(v as usize) {
            let ints = order.map_values(|x: usize| x as int);
            assert forall|a: int, b: int| 0 <= a < ints.len() && 0 <= b < ints.len() && a != b implies ints[a]
                != ints[b] by {
                if a < b {
                    assert(order[a] != order[b]);
                } else {
                    assert(order[b] != order[a]);
                }
            }
            assert(ints.no_duplicates());
            ints.unique_seq_to_set();
            lemma_int_range(0, n);
            let rest = set_int_range(0, n).remove(v);
            assert forall|x: int| #[trigger] ints.to_set().contains(x) implies rest.contains(x) by {
                let j = choose|j: int| 0 <= j < ints.len() && ints[j] == x;
                assert(order[j] < n);
                if x == v {
                    assert(order[j] == v as usize);
                    assert(order.contains(v as usize));
                }
            }
            lemma_len_subset(ints.to_set(), rest);
        }
    }
}

/// Reads as a current input what another pass writes.
fn pass_depends_on(passes: &Vec<PassInfo>, p: usize, q: usize) -> (r: bool)
    requires
        p < passes@.len(),
        q < passes@.len(),
    ensures
        r == depends_on(passes@, p as int, q as int),
{
    if p == q {
        return false;
    }
    let inputs = &passes[p].inputs;
    let outputs = &passes[q].outputs;
    let mut x: usize = 0;
    while x < inputs.len()
        invariant
            p < passes@.len(),
            q < passes@.len(),
            p != q,
            x <= inputs@.len(),
            inputs@ == passes@[p as int].inputs@,
            outputs@ == passes@[q as int].outputs@,
            forall|y: int|
                0 <= y < x ==> (#[trigger] inputs@[y]).is_history || !produces(
                    passes@[q as int],
                    inputs@[y].name@,
                ),
        decreases inputs@.len() - x,
    {
        if !inputs[x].is_history {
            let mut o: usize = 0;
            while o < outputs.len()
                invariant
                    p < passes@.len(),
                    q < passes@.len(),
                    o <= outputs@.len(),
                    x < inputs@.len(),
                    !inputs@[x as int].is_history,
                    p != q,
                    inputs@ == passes@[p as int].inputs@,
                    outputs@ == passes@[q as int].outputs@,
                    forall|t: int| 0 <= t < o ==> (#[trigger] outputs@[t]).name@ != inputs@[x as int].name@,
                decreases outputs@.len() - o,
            {
                if outputs[o].name == inputs[x].name {
                    proof {
                        assert(passes@[q as int].outputs@[o as int].name@ == inputs@[x as int].name@);
                        assert(produces(passes@[q as int], inputs@[x as int].name@));
                        assert(!passes@[p as int].inputs@[x as int].is_history);
                    }
                    return true;
                }
                o = o + 1;
            }
            proof {
                if produces(passes@[q as int], inputs@[x as int].name@) {
                    let t = choose|t: int|
                        0 <= t < passes@[q as int].outputs@.len() && #[trigger] passes@[q as int].outputs@[t].name@
                            == inputs@[x as int].name@;
                    assert(outputs@[t].name@ != inputs@[x as int].name@);
                }
            }
        }
        x = x + 1;
    }
    false
}

/// Orders the declared passes so that each runs after the passes whose
/// outputs it reads as current inputs. Inputs that no other pass writes come
/// from outside the graph; history inputs read the previous frame and order
/// nothing. Among the passes that are ready, the one whose latest producer
/// ran longest ago goes first, ties to the earlier declaration. Fails, with
/// the passes that could not be placed, when their dependencies form a
/// cycle.
pub fn reorder_passes(passes: &Vec<PassInfo>) -> (r: Result<Vec<usize>, ScheduleError>)
    ensures
        schedule_result(pass_relation(passes@), passes@.len() as int, r),
{
    let n = passes.len();
    let mut deps: Vec<Vec<bool>> = Vec::new();
    let mut p: usize = 0;
    while p < n
        invariant
            n == passes@.len(),
            p <= n,
            deps@.len() == p,
            forall|a: int| 0 <= a < p ==> (#[trigger] deps@[a])@.len() == n,
            forall|a: int, b: int| 0 <= a < p && 0 <= b < n ==> #[trigger] deps@[a]@[b] == depends_on(passes@, a, b),
        decreases n - p,
    {
        let mut row: Vec<bool> = Vec::new();
        let mut q: usize = 0;
        while q < n
            invariant
                n == passes@.len(),
                p < n,
                q <= n,
                row@.len() == q,
                forall|b: int| 0 <= b < q ==> #[trigger] row@[b] == depends_on(passes@, p as int, b),
            decreases n - q,
        {
            row.push(pass_depends_on(passes, p, q));
            q = q + 1;
        }
        deps.push(row);
        p = p + 1;
    }
    proof {
        assert(matrix_relation(deps@) =~= pass_relation(passes@)) by {
            assert forall|a: int, b: int| #[trigger] matrix_relation(deps@)(a, b) == pass_relation(passes@)(a, b) by {
                if 0 <= a < n && 0 <= b < n {
                    assert(deps@[a]@[b] == depends_on(passes@, a, b));
                }
            }
        }
    }
    schedule_order(&deps)
}

/// A pass set in which pass `p` reads, as a current input, what pass `q`
/// writes and `q` reads what `p` writes has no valid order: scheduling it
/// fails, and does not place either pass before the other.
pub proof fn lemma_cycle_rejected(passes: Seq<PassInfo>, p: int, q: int, r: Result<Vec<usize>, ScheduleError>)
    requires
        0 <= p < passes.len(),
        0 <= q < passes.len(),
        passes.len() <= usize::MAX,
        depends_on(passes, p, q),
        depends_on(passes, q, p),
        schedule_result(pass_relation(passes), passes.len() as int, r),
    ensures
        r is Err,
{
    if let Ok(order) = r {
        let o = order@;
        let dep = pass_relation(passes);
        assert(o.contains(p as usize));
        assert(o.contains(q as usize));
        let i = choose|i: int| 0 <= i < o.len() && o[i] == p as usize;
        let j = choose|j: int| 0 <= j < o.len() && o[j] == q as usize;
        assert(dep(o[i] as int, q));
        let j2 = choose|j2: int| 0 <= j2 < i && o[j2] == q;
        assert(dep(o[j] as int, p));
        let i2 = choose|i2: int| 0 <= i2 < j && o[i2] == p;
        if j2 != j {
            if j2 < j {
                assert(o[j2] != o[j]);
            } else {
                assert(o[j] != o[j2]);
            }
        }
        if i2 != i {
            if i2 < i {
                assert(o[i2] != o[i]);
            } else {
                assert(o[i] != o[i2]);
            }
        }
    }
}

/// In a computed order, every pass runs after each other pass that writes
/// one of its current inputs: if the pass at position `k` reads input `x`,
/// not as history, and pass `q` writes a resource of that name, `q` stands
/// at a position before `k`.
pub proof fn lemma_producers_run_first(passes: Seq<PassInfo>, order: Vec<usize>, k: int, x: int, q: int)
    requires
        schedule_result(pass_relation(passes), passes.len() as int, Ok(order)),
        0 <= k < order@.len(),
        0 <= x < passes[order@[k] as int].inputs@.len(),
        !passes[order@[k] as int].inputs@[x].is_history,
        0 <= q < passes.len(),
        q != order@[k] as int,
        produces(passes[q], passes[order@[k] as int].inputs@[x].name@),
    ensures
        exists|j: int| 0 <= j < k && order@[j] == q,
{
    let p = order@[k] as int;
    assert(depends_on(passes, p, q));
    assert(pass_relation(passes)(order@[k] as int, q));
}

} // verus!
