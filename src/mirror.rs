use vstd::prelude::*;
use crate::config::Config;
use crate::path::{
    SEP,
    ends_with_components,
    is_first_sep,
    join,
    lemma_first_sep_unique,
    map_path,
    mapped_path,
};
use crate::walk::{
    Node,
    eligible_files,
    lemma_walk_shape,
    is_pruned,
    lies_under,
    unpruned_below,
    well_formed,
    listed_file_is_mirrored,
    open_route,
    route_target,
    views,
    walk_node,
};

verus! {

/// One file to mirror: where it is, and where its mirror goes.
pub struct Transfer {
    pub source: String,
    pub destination: String,
}

/// A file that the walk found outside the configured source subtree.
pub struct UnmappedPath {
    pub path: String,
}

/// Every path of `files` has a place in the mirror.
pub open spec fn all_mapped(cfg: Config, files: Seq<Seq<char>>) -> bool {
    forall|i: int| 0 <= i < files.len() ==> (#[trigger] mapped_path(files[i], cfg.src@, cfg.dst@)) is Some
}

/// `ts` pairs each file that the walk of `root` hands on, in order, with its
/// place in the mirror.
pub open spec fn is_plan_of(cfg: Config, root: Node, ts: Seq<Transfer>) -> bool {
    &&& ts.len() == walk_node(cfg, root).len()
    &&& forall|i: int|
        0 <= i < ts.len() ==> {
            &&& (#[trigger] ts[i]).source@ == walk_node(cfg, root)[i]
            &&& mapped_path(walk_node(cfg, root)[i], cfg.src@, cfg.dst@) == Some(ts[i].destination@)
        }
}

/// The transfers of a mirroring run over the tree at `root`: each file the walk
/// hands on, in order, with its destination. Fails with the first file that
/// lies outside the source subtree.
pub fn plan(cfg: &Config, root: &Node) -> (r: Result<Vec<Transfer>, UnmappedPath>)
    ensures
        (r is Ok) <==> all_mapped(*cfg, walk_node(*cfg, *root)),
        match r {
            Ok(ts) => is_plan_of(*cfg, *root, ts@),
            Err(e) => exists|i: int|
                0 <= i < walk_node(*cfg, *root).len() && #[trigger] walk_node(*cfg, *root)[i]
                    == e.path@ && mapped_path(e.path@, cfg.src@, cfg.dst@) is None && all_mapped(
                    *cfg,
                    walk_node(*cfg, *root).take(i),
                ),
        },
{
    let files = eligible_files(cfg, root);
    let ghost w = walk_node(*cfg, *root);
    let n = files.len();
    let mut out: Vec<Transfer> = Vec::new();
    let mut i: usize = 0;
    while i < n
        invariant
            n == files@.len(),
            views(files@) == w,
            w == walk_node(*cfg, *root),
            i <= n,
            out@.len() == i,
            forall|j: int|
                0 <= j < i ==> {
                    &&& (#[trigger] out@[j]).source@ == w[j]
                    &&& mapped_path(w[j], cfg.src@, cfg.dst@) == Some(out@[j].destination@)
                },
        decreases n - i,
    {
        assert(w[i as int] == files@[i as int]@);
        match map_path(cfg, files[i].as_str()) {
            Some(d) => {
                out.push(Transfer { source: files[i].clone(), destination: d });
            },
            None => {
                proof {
                    assert forall|j: int| 0 <= j < w.take(i as int).len() implies (#[trigger] mapped_path(
                        w.take(i as int)[j],
                        cfg.src@,
                        cfg.dst@,
                    )) is Some by {
                        assert(w.take(i as int)[j] == w[j]);
                        assert(out@[j].source@ == w[j]);
                    }
                    assert(mapped_path(w[i as int], cfg.src@, cfg.dst@) is None);
                    assert(!all_mapped(*cfg, w));
                }
                let p = files[i].clone();
                assert(p@ == w[i as int]);
                assert(w.take(i as int).len() == i);
                return Err(UnmappedPath { path: p });
            },
        }
        i = i + 1;
    }
    proof {
        assert forall|j: int| 0 <= j < w.len() implies (#[trigger] mapped_path(
            w[j],
            cfg.src@,
            cfg.dst@,
        )) is Some by {
            assert(out@[j].source@ == w[j]);
        }
    }
    Ok(out)
}

/// Every file reached through entered, unpruned directories, whose own
/// listing holds no exclusion marker, is transferred to its mapped place.
pub proof fn listed_file_is_transferred(cfg: Config, root: Node, route: Seq<int>, ts: Seq<Transfer>)
    requires
        open_route(cfg, root, route),
        is_plan_of(cfg, root, ts),
    ensures
        exists|i: int|
            0 <= i < ts.len() && (#[trigger] ts[i]).source@ == route_target(root, route)
                && mapped_path(route_target(root, route), cfg.src@, cfg.dst@) == Some(
                ts[i].destination@,
            ),
{
    listed_file_is_mirrored(cfg, root, route);
    let w = walk_node(cfg, root);
    let f = route_target(root, route);
    let i = choose|i: int| 0 <= i < w.len() && #[trigger] w[i] == f;
    assert(ts[i].source@ == f);
}

/// A path below the source subtree `rp` (a volume prefix of `k + 1`
/// characters, then `src`) maps to that prefix, then `dst`, then its part
/// below `rp`.
proof fn lemma_map_below_source(cfg: Config, rp: Seq<char>, k: int, y: Seq<char>)
    requires
        is_first_sep(rp, k),
        rp.skip(k + 1) == cfg.src@,
        cfg.src@.len() > 0,
        lies_under(y, rp),
    ensures
        mapped_path(y, cfg.src@, cfg.dst@) == Some(
            join(join(rp.take(k + 1), cfg.dst@), y.skip(rp.len() + 1int)),
        ),
{
    let src = cfg.src@;
    assert forall|j: int| 0 <= j < rp.len() implies y[j] == rp[j] by {
        assert(y[j] == y.take(rp.len() as int)[j]);
    }
    assert(is_first_sep(y, k));
    lemma_first_sep_unique(y, k);
    let rest = y.skip(k + 1);
    assert(src.len() == rp.len() - k - 1);
    assert(rest.take(src.len() as int) =~= src) by {
        assert forall|j: int| 0 <= j < src.len() implies rest.take(src.len() as int)[j] == src[j] by {
            assert(src[j] == rp[k + 1 + j]);
        }
    }
    assert(rest[src.len() as int] == y[rp.len() as int]);
    assert(rest.len() != src.len());
    assert(rest.skip(src.len() + 1int) =~= y.skip(rp.len() + 1int));
    assert(y.take(k + 1) =~= rp.take(k + 1));
}

/// Every file that a walk hands on has a place in the mirror when the walk
/// starts at the source subtree itself: a volume prefix followed by the
/// configured, nonempty `src`. `plan` then succeeds.
pub proof fn source_tree_maps(cfg: Config, root: Node, k: int)
    requires
        well_formed(root),
        is_first_sep(root.path(), k),
        root.path().skip(k + 1) == cfg.src@,
        cfg.src@.len() > 0,
    ensures
        all_mapped(cfg, walk_node(cfg, root)),
{
    lemma_walk_shape(cfg, root);
    let w = walk_node(cfg, root);
    assert forall|t: int| 0 <= t < w.len() implies (#[trigger] mapped_path(
        w[t],
        cfg.src@,
        cfg.dst@,
    )) is Some by {
        lemma_map_below_source(cfg, root.path(), k, w[t]);
    }
}

/// Nothing is mirrored into the place of a disallowed directory: when the walk
/// starts at the source subtree, no destination of a file it hands on lies
/// below the mapped path of a directory whose path ends with a disallowed
/// name, at any depth.
pub proof fn disallowed_dir_mirror_untouched(
    cfg: Config,
    root: Node,
    k: int,
    d: int,
    b: Seq<char>,
    x: Seq<char>,
)
    requires
        well_formed(root),
        is_first_sep(root.path(), k),
        root.path().skip(k + 1) == cfg.src@,
        cfg.src@.len() > 0,
        0 <= d < cfg.disallowed_dirs@.len(),
        lies_under(b, root.path()),
        b.len() > root.path().len() + 1,
        ends_with_components(b, cfg.disallowed_dirs@[d]@),
        walk_node(cfg, root).contains(x),
    ensures
        mapped_path(x, cfg.src@, cfg.dst@) is Some,
        mapped_path(b, cfg.src@, cfg.dst@) is Some,
        !lies_under(
            mapped_path(x, cfg.src@, cfg.dst@)->0,
            mapped_path(b, cfg.src@, cfg.dst@)->0,
        ),
{
    let rp = root.path();
    let r = rp.len() as int;
    lemma_walk_shape(cfg, root);
    let w = walk_node(cfg, root);
    let t = choose|t: int| 0 <= t < w.len() && #[trigger] w[t] == x;
    assert(lies_under(w[t], rp) && unpruned_below(cfg, rp, w[t]));
    lemma_map_below_source(cfg, rp, k, x);
    lemma_map_below_source(cfg, rp, k, b);
    let a = join(rp.take(k + 1), cfg.dst@);
    let cx = x.skip(r + 1);
    let cb = b.skip(r + 1);
    let mx = join(a, cx);
    let mb = join(a, cb);
    assert(cb.len() > 0);
    let bb = if a.len() == 0 || a.last() == SEP {
        a
    } else {
        a + seq![SEP]
    };
    assert(mb =~= bb + cb);
    if lies_under(mx, mb) {
        if cx.len() == 0 {
            assert(mx == a);
        } else {
            assert(mx =~= bb + cx);
            assert forall|j: int| 0 <= j < cb.len() implies cx[j] == cb[j] by {
                assert(mx[bb.len() + j] == mx.take(mb.len() as int)[bb.len() + j]);
            }
            assert(cx[cb.len() as int] == mx[mb.len() as int]);
            let kk = b.len() as int;
            assert(x.take(kk) =~= b) by {
                assert forall|j: int| 0 <= j < kk implies x.take(kk)[j] == b[j] by {
                    if j < r {
                        assert(x[j] == x.take(r)[j]);
                        assert(b[j] == b.take(r)[j]);
                    } else if j > r {
                        assert(x[j] == cx[j - r - 1]);
                        assert(b[j] == cb[j - r - 1]);
                    }
                }
            }
            assert(x[kk] == cx[cb.len() as int]);
            assert(is_pruned(cfg, x.take(kk)));
        }
    }
}

} // verus!
