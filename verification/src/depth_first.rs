//! The walk of a search, one visit at a time, visits what a search by
//! recursion visits, in the same order, and ends.

use crate::order::sorted_names;
use crate::request::Request;
use crate::traverse::{
    entries_below, next_request, outcome_of, stacked, start_walk, step_walk, visit_of, Entry,
    ProbeView, Visited, Walk,
};
use vstd::prelude::*;

verus! {

/// What is found at each path while a search runs.
pub type World = spec_fn(Seq<char>) -> ProbeView;

/// The request for the entry at `path`: the same pattern and flags.
pub open spec fn request_at(request: Request, path: Seq<char>) -> Request {
    Request { root: path, ..request }
}

/// The directory at the root of `request`, `depth` directories below the
/// start, is entered: it is a directory, the request is recursive and the
/// limit is not reached.
pub open spec fn enters(request: Request, depth: nat, limit: nat, world: World) -> bool {
    world(request.root) is Directory && request.recursive && depth < limit
}

/// The visits of a search of the root of `request` by recursion: the root
/// first; where it is a directory that is entered, then what the search of
/// each of its entries visits, the entries taken in the order of names.
pub open spec fn visits_below(request: Request, depth: nat, limit: nat, world: World) -> Seq<
    Visited,
>
    decreases limit - depth, 0nat,
{
    let here = Visited {
        path: request.root,
        outcome: outcome_of(request, depth, limit, world(request.root)),
    };
    if enters(request, depth, limit, world) {
        seq![here] + visits_of_all(
            request,
            sorted_names(world(request.root)->Directory_0),
            depth + 1,
            limit,
            world,
        )
    } else {
        seq![here]
    }
}

/// The visits of the searches of the entries at `names`, one search after
/// the other.
pub open spec fn visits_of_all(
    request: Request,
    names: Seq<Seq<char>>,
    depth: nat,
    limit: nat,
    world: World,
) -> Seq<Visited>
    decreases limit - depth, 1 + names.len(),
{
    if names.len() == 0 {
        Seq::empty()
    } else {
        visits_below(request_at(request, names.first()), depth, limit, world) + visits_of_all(
            request,
            names.drop_first(),
            depth,
            limit,
            world,
        )
    }
}

/// The visits that a search makes in its first `steps` steps, when it finds
/// at each path what `world` holds there.
pub open spec fn run(walk: Walk, world: World, steps: nat) -> Seq<Visited>
    decreases steps,
{
    if steps == 0 || walk.pending.len() == 0 {
        Seq::empty()
    } else {
        let probe = world(walk.pending.last().path);
        seq![visit_of(walk, probe)->0] + run(step_walk(walk, probe), world, (steps - 1) as nat)
    }
}

/// The state of a search after `steps` steps.
pub open spec fn walk_after(walk: Walk, world: World, steps: nat) -> Walk
    decreases steps,
{
    if steps == 0 || walk.pending.len() == 0 {
        walk
    } else {
        walk_after(step_walk(walk, world(walk.pending.last().path)), world, (steps - 1) as nat)
    }
}

/// The visits that the pending entries stand for: the search of the last
/// one, which is next, then those of the others.
pub open spec fn visits_pending(
    request: Request,
    pending: Seq<Entry>,
    limit: nat,
    world: World,
) -> Seq<Visited>
    decreases pending.len(),
{
    if pending.len() == 0 {
        Seq::empty()
    } else {
        visits_below(request_at(request, pending.last().path), pending.last().depth, limit, world)
            + visits_pending(request, pending.drop_last(), limit, world)
    }
}

/// Entries stacked on top of others stand for the searches of their names in
/// order, followed by what the others stand for.
proof fn lemma_visits_of_stacked(
    request: Request,
    rest: Seq<Entry>,
    names: Seq<Seq<char>>,
    depth: nat,
    limit: nat,
    world: World,
)
    ensures
        visits_pending(request, rest + stacked(names, depth), limit, world) == visits_of_all(
            request,
            names,
            depth,
            limit,
            world,
        ) + visits_pending(request, rest, limit, world),
    decreases names.len(),
{
    let pending = rest + stacked(names, depth);
    let behind = visits_pending(request, rest, limit, world);
    if names.len() == 0 {
        assert(pending =~= rest);
        assert(Seq::<Visited>::empty() + behind =~= behind);
    } else {
        let first = visits_below(request_at(request, names.first()), depth, limit, world);
        let others = visits_of_all(request, names.drop_first(), depth, limit, world);
        assert(pending.last() == Entry { path: names.first(), depth });
        assert(pending.drop_last() =~= rest + stacked(names.drop_first(), depth));
        lemma_visits_of_stacked(request, rest, names.drop_first(), depth, limit, world);
        assert(first + (others + behind) =~= (first + others) + behind);
    }
}

/// A search visits what the search by recursion visits, in the same order,
/// and is over after as many steps: once `steps` is no less than the number
/// of visits that the pending entries stand for, the run is those visits and
/// nothing is left pending.
pub proof fn lemma_run_is_depth_first(walk: Walk, world: World, steps: nat)
    requires
        steps >= visits_pending(walk.request, walk.pending, walk.depth_limit, world).len(),
    ensures
        run(walk, world, steps) == visits_pending(
            walk.request,
            walk.pending,
            walk.depth_limit,
            world,
        ),
        walk_after(walk, world, steps).pending.len() == 0,
    decreases steps,
{
    if walk.pending.len() > 0 {
        let top = walk.pending.last();
        let rest = walk.pending.drop_last();
        let request = request_at(walk.request, top.path);
        let probe = world(top.path);
        let after = step_walk(walk, probe);
        let here = Visited {
            path: top.path,
            outcome: outcome_of(request, top.depth, walk.depth_limit, probe),
        };
        let behind = visits_pending(walk.request, rest, walk.depth_limit, world);
        assert(next_request(walk) == request);
        assert(visit_of(walk, probe) == Some(here));
        if enters(request, top.depth, walk.depth_limit, world) {
            let names = sorted_names(probe->Directory_0);
            let inside = visits_of_all(request, names, top.depth + 1, walk.depth_limit, world);
            assert(after.pending == rest + stacked(names, top.depth + 1));
            lemma_visits_of_stacked(walk.request, rest, names, top.depth + 1, walk.depth_limit, world);
            lemma_same_flags(walk.request, request, names, top.depth + 1, walk.depth_limit, world);
            assert((seq![here] + inside) + behind =~= seq![here] + (inside + behind));
        } else {
            assert(after.pending == rest);
        }
        assert(visits_pending(walk.request, walk.pending, walk.depth_limit, world) == seq![here]
            + visits_pending(after.request, after.pending, after.depth_limit, world));
        lemma_run_is_depth_first(after, world, (steps - 1) as nat);
    }
}

/// The searches of the entries of a directory do not depend on the root of
/// the request from which their requests are derived.
proof fn lemma_same_flags(
    first: Request,
    second: Request,
    names: Seq<Seq<char>>,
    depth: nat,
    limit: nat,
    world: World,
)
    requires
        second == request_at(first, second.root),
    ensures
        visits_of_all(first, names, depth, limit, world) == visits_of_all(
            second,
            names,
            depth,
            limit,
            world,
        ),
    decreases names.len(),
{
    if names.len() > 0 {
        assert(request_at(first, names.first()) == request_at(second, names.first()));
        lemma_same_flags(first, second, names.drop_first(), depth, limit, world);
    }
}

/// A search from its start visits exactly what the search by recursion
/// visits, in the same order, and then it is over. This holds whatever the
/// file system holds, directories that contain themselves included: the
/// number of visits is finite because no directory below the depth limit is
/// entered.
pub proof fn lemma_search_is_depth_first(request: Request, limit: nat, world: World, steps: nat)
    requires
        steps >= visits_below(request, 0, limit, world).len(),
    ensures
        run(start_walk(request, limit), world, steps) == visits_below(request, 0, limit, world),
        walk_after(start_walk(request, limit), world, steps).pending.len() == 0,
{
    let walk = start_walk(request, limit);
    let visits = visits_below(request, 0, limit, world);
    assert(request_at(request, request.root) == request);
    assert(walk.pending.drop_last() =~= Seq::empty());
    assert(visits_pending(request, walk.pending, limit, world) =~= visits) by {
        assert(visits_pending(request, walk.pending.drop_last(), limit, world)
            =~= Seq::<Visited>::empty());
        assert(visits + Seq::<Visited>::empty() =~= visits);
    }
    lemma_run_is_depth_first(walk, world, steps);
}

} // verus!
