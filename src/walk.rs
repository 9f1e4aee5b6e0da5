use vstd::prelude::*;
use crate::config::Config;
use crate::path::{SEP, ends_with_components, path_ends_with};

verus! {

broadcast use vstd::std_specs::vec::group_vec_axioms;

/// One entry of a directory tree as the file system lists it. Each entry holds
/// its full path; a directory holds its listing in the order it was reported.
pub enum Node {
    File(String),
    Dir(String, Vec<Node>),
}

impl Node {
    pub open spec fn path(self) -> Seq<char> {
        match self {
            Node::File(p) => p@,
            Node::Dir(p, _) => p@,
        }
    }
}

/// The views of a sequence of strings.
pub open spec fn views(s: Seq<String>) -> Seq<Seq<char>> {
    s.map_values(|x: String| x@)
}

/// A directory at `p` is pruned: its path ends with the components of a
/// disallowed directory.
pub open spec fn is_pruned(cfg: Config, p: Seq<char>) -> bool {
    exists|j: int|
        0 <= j < cfg.disallowed_dirs@.len() && ends_with_components(
            p,
            #[trigger] cfg.disallowed_dirs@[j]@,
        )
}

/// A file at `p` is an exclusion marker.
pub open spec fn is_marker(cfg: Config, p: Seq<char>) -> bool {
    exists|j: int|
        0 <= j < cfg.exclusion_markers@.len() && ends_with_components(
            p,
            #[trigger] cfg.exclusion_markers@[j]@,
        )
}

pub open spec fn is_marker_entry(cfg: Config, n: Node) -> bool {
    n is File && is_marker(cfg, n.path())
}

/// A directory entry that the walk enters.
pub open spec fn is_entered(cfg: Config, n: Node) -> bool {
    n is Dir && !is_pruned(cfg, n.path())
}

/// `i` is the position of the first exclusion marker in listing `s`.
pub open spec fn is_first_marker(cfg: Config, s: Seq<Node>, i: int) -> bool {
    &&& 0 <= i < s.len()
    &&& is_marker_entry(cfg, s[i])
    &&& forall|j: int| 0 <= j < i ==> !is_marker_entry(cfg, #[trigger] s[j])
}

pub open spec fn has_marker(cfg: Config, s: Seq<Node>) -> bool {
    exists|i: int| 0 <= i < s.len() && is_marker_entry(cfg, #[trigger] s[i])
}

/// How far the scan of listing `s` goes: up to its first exclusion marker, or
/// to its end when it holds none.
pub open spec fn scan_end(cfg: Config, s: Seq<Node>) -> int {
    if has_marker(cfg, s) {
        choose|i: int| is_first_marker(cfg, s, i)
    } else {
        s.len() as int
    }
}

/// The paths of the files among the first `k` entries of listing `s`.
pub open spec fn pending_upto(s: Seq<Node>, k: int) -> Seq<Seq<char>>
    decreases k,
{
    if k <= 0 {
        Seq::empty()
    } else {
        let prev = pending_upto(s, k - 1);
        if s[k - 1] is File {
            prev.push(s[k - 1].path())
        } else {
            prev
        }
    }
}

/// The files mirrored from the walk of the directories entered among the first
/// `k` entries of listing `ch`, in order.
pub open spec fn descended_upto(cfg: Config, ch: Vec<Node>, k: int) -> Seq<Seq<char>>
    decreases ch, k,
{
    if k <= 0 || k > ch.len() {
        Seq::empty()
    } else {
        let prev = descended_upto(cfg, ch, k - 1);
        if is_entered(cfg, ch[k - 1]) {
            prev + walk_node(cfg, ch[k - 1])
        } else {
            prev
        }
    }
}

/// The files that a walk of `n` hands on for mirroring, in order. Each
/// entered subdirectory is walked where it is listed; the directory's own
/// files follow once its listing is scanned to the end, and are dropped when
/// the scan stops at an exclusion marker.
pub open spec fn walk_node(cfg: Config, n: Node) -> Seq<Seq<char>>
    decreases n, 0int,
{
    match n {
        Node::File(_) => Seq::empty(),
        Node::Dir(dp, ch) => {
            let e = scan_end(cfg, ch@);
            if e == ch.len() {
                descended_upto(cfg, ch, e) + pending_upto(ch@, e)
            } else {
                descended_upto(cfg, ch, e)
            }
        },
    }
}

proof fn lemma_first_marker_unique(cfg: Config, s: Seq<Node>, i: int)
    requires
        is_first_marker(cfg, s, i),
    ensures
        has_marker(cfg, s),
        scan_end(cfg, s) == i,
{
    assert(is_marker_entry(cfg, s[i]));
    let c = choose|c: int| is_first_marker(cfg, s, c);
    assert(is_first_marker(cfg, s, c));
    if c < i {
        assert(!is_marker_entry(cfg, s[c]));
    } else if i < c {
        assert(!is_marker_entry(cfg, s[i]));
    }
}

/// Whether a directory at `p` is pruned by `cfg.disallowed_dirs`.
pub fn is_disallowed_dir(cfg: &Config, p: &str) -> (r: bool)
    ensures
        r == is_pruned(*cfg, p@),
{
    let n = cfg.disallowed_dirs.len();
    let mut j: usize = 0;
    while j < n
        invariant
            n == cfg.disallowed_dirs@.len(),
            j <= n,
            forall|k: int| 0 <= k < j ==> !ends_with_components(p@, #[trigger] cfg.disallowed_dirs@[k]@),
        decreases n - j,
    {
        if path_ends_with(p, cfg.disallowed_dirs[j].as_str()) {
            return true;
        }
        j = j + 1;
    }
    false
}

/// Whether a file at `p` is an exclusion marker of `cfg`.
pub fn is_exclusion_marker(cfg: &Config, p: &str) -> (r: bool)
    ensures
        r == is_marker(*cfg, p@),
{
    let n = cfg.exclusion_markers.len();
    let mut j: usize = 0;
    while j < n
        invariant
            n == cfg.exclusion_markers@.len(),
            j <= n,
            forall|k: int| 0 <= k < j ==> !ends_with_components(p@, #[trigger] cfg.exclusion_markers@[k]@),
        decreases n - j,
    {
        if path_ends_with(p, cfg.exclusion_markers[j].as_str()) {
            return true;
        }
        j = j + 1;
    }
    false
}

/// Appends to `out` the files that a walk of `n` hands on for mirroring.
pub fn walk(cfg: &Config, n: &Node, out: &mut Vec<String>)
    ensures
        views(final(out)@) == views(old(out)@) + walk_node(*cfg, *n),
    decreases n,
{
    match n {
        Node::File(_) => {
            assert(views(out@) =~= views(out@) + walk_node(*cfg, *n));
        },
        Node::Dir(dp, ch) => {
            let ghost start = out@;
            let mut pending: Vec<String> = Vec::new();
            let len = ch.len();
            let mut i: usize = 0;
            while i < len
                invariant
                    len == ch@.len(),
                    i <= len,
                    *n == Node::Dir(*dp, *ch),
                    forall|j: int| 0 <= j < i ==> !is_marker_entry(*cfg, #[trigger] ch@[j]),
                    start == old(out)@,
                    views(out@) == views(start) + descended_upto(*cfg, *ch, i as int),
                    views(pending@) == pending_upto(ch@, i as int),
                decreases len - i,
            {
                let ghost before = out@;
                match &ch[i] {
                    Node::Dir(p, _) => {
                        if !is_disallowed_dir(cfg, p.as_str()) {
                            proof {
                                assert(decreases_to!(*n => n->Dir_1));
                                assert(decreases_to!(*ch => ch[i as int]));
                            }
                            walk(cfg, &ch[i], out);
                            assert(views(out@) =~= views(start) + descended_upto(
                                *cfg,
                                *ch,
                                i + 1,
                            ));
                        }
                    },
                    Node::File(p) => {
                        if is_exclusion_marker(cfg, p.as_str()) {
                            proof {
                                lemma_first_marker_unique(*cfg, ch@, i as int);
                                assert(walk_node(*cfg, *n) == descended_upto(*cfg, *ch, i as int));
                            }
                            return;
                        }
                        pending.push(p.clone());
                        assert(views(pending@) =~= pending_upto(ch@, i + 1));
                    },
                }
                i = i + 1;
            }
            proof {
                if has_marker(*cfg, ch@) {
                    let c = choose|c: int| 0 <= c < ch@.len() && is_marker_entry(*cfg, ch@[c]);
                    assert(!is_marker_entry(*cfg, ch@[c]));
                }
            }
            let ghost mid = out@;
            out.append(&mut pending);
            assert(views(out@) =~= views(mid) + pending_upto(ch@, len as int));
            assert(views(out@) =~= views(start) + walk_node(*cfg, *n));
        },
    }
}

/// The files of the tree at `root` that a mirroring run hands on, in the order
/// in which they are synchronized.
pub fn eligible_files(cfg: &Config, root: &Node) -> (r: Vec<String>)
    ensures
        views(r@) == walk_node(*cfg, *root),
{
    let mut out: Vec<String> = Vec::new();
    walk(cfg, root, &mut out);
    assert(views(out@) =~= walk_node(*cfg, *root));
    out
}

/// `c` names an entry listed directly in the directory at `p`: `p`, a
/// separator, then a nonempty name without separators.
pub open spec fn child_of(p: Seq<char>, c: Seq<char>) -> bool {
    &&& c.len() > p.len() + 1
    &&& c.take(p.len() as int) == p
    &&& c[p.len() as int] == SEP
    &&& forall|k: int| p.len() < k < c.len() ==> c[k] != SEP
}

/// Every entry of the tree at `n` is named below the path of its directory,
/// and no two entries of one listing share a path.
pub open spec fn well_formed(n: Node) -> bool
    decreases n,
{
    match n {
        Node::File(_) => true,
        Node::Dir(p, ch) => {
            &&& forall|i: int|
                0 <= i < ch.len() ==> child_of(p@, #[trigger] ch[i].path()) && well_formed(ch[i])
            &&& forall|i: int, j: int|
                0 <= i < ch.len() && 0 <= j < ch.len() && i != j ==> #[trigger] ch[i].path()
                    != #[trigger] ch[j].path()
        },
    }
}

/// `x` lies below the directory at `p`.
pub open spec fn lies_under(x: Seq<char>, p: Seq<char>) -> bool {
    &&& x.len() > p.len()
    &&& x.take(p.len() as int) == p
    &&& x[p.len() as int] == SEP
}

/// Every directory between `p` and `x` on the path of `x` is left unpruned.
pub open spec fn unpruned_below(cfg: Config, p: Seq<char>, x: Seq<char>) -> bool {
    forall|k: int| p.len() < k < x.len() && x[k] == SEP ==> !is_pruned(cfg, #[trigger] x.take(k))
}

/// `x` lies at least two levels below the directory at `p`.
pub open spec fn deeper_than_child(p: Seq<char>, x: Seq<char>) -> bool {
    exists|k: int| p.len() < k < x.len() && x[k] == SEP
}

proof fn lemma_pending_shape(p: Seq<char>, s: Seq<Node>, k: int)
    requires
        0 <= k <= s.len(),
        forall|i: int| 0 <= i < s.len() ==> child_of(p, #[trigger] s[i].path()),
    ensures
        forall|t: int|
            0 <= t < pending_upto(s, k).len() ==> child_of(p, #[trigger] pending_upto(s, k)[t]),
    decreases k,
{
    if k > 0 {
        lemma_pending_shape(p, s, k - 1);
        let prev = pending_upto(s, k - 1);
        assert forall|t: int| 0 <= t < pending_upto(s, k).len() implies child_of(
            p,
            #[trigger] pending_upto(s, k)[t],
        ) by {
            if t < prev.len() {
                assert(pending_upto(s, k)[t] == prev[t]);
            } else {
                assert(child_of(p, s[k - 1].path()));
            }
        }
    }
}

proof fn lemma_pending_has(s: Seq<Node>, k: int, i: int)
    requires
        0 <= i < k <= s.len(),
        s[i] is File,
    ensures
        pending_upto(s, k).contains(s[i].path()),
    decreases k,
{
    if i < k - 1 {
        lemma_pending_has(s, k - 1, i);
        let t = choose|t: int|
            0 <= t < pending_upto(s, k - 1).len() && #[trigger] pending_upto(s, k - 1)[t] == s[i].path();
        assert(pending_upto(s, k)[t] == s[i].path());
    } else {
        let prev = pending_upto(s, k - 1);
        assert(pending_upto(s, k)[prev.len() as int] == s[i].path());
    }
}

/// Every file that a walk of a well-formed tree hands on lies below the
/// walked directory, with no pruned directory in between.
pub proof fn lemma_walk_shape(cfg: Config, n: Node)
    requires
        well_formed(n),
    ensures
        forall|t: int|
            0 <= t < walk_node(cfg, n).len() ==> lies_under(
                #[trigger] walk_node(cfg, n)[t],
                n.path(),
            ) && unpruned_below(cfg, n.path(), walk_node(cfg, n)[t]),
    decreases n, 0int,
{
    match n {
        Node::File(_) => {},
        Node::Dir(p, ch) => {
            let e = scan_end(cfg, ch@);
            if has_marker(cfg, ch@) {
                let c = choose|c: int| 0 <= c < ch@.len() && is_marker_entry(cfg, ch@[c]);
                lemma_first_marker_exists(cfg, ch@, c);
            }
            assert(0 <= e <= ch.len());
            assert(decreases_to!(n => n->Dir_1));
            lemma_descended_shape(cfg, p@, ch, e);
            assert forall|i: int| 0 <= i < ch@.len() implies child_of(p@, #[trigger] ch@[i].path()) by {
                assert(child_of(p@, ch[i].path()));
            }
            lemma_pending_shape(p@, ch@, e);
            let d = descended_upto(cfg, ch, e);
            let q = pending_upto(ch@, e);
            assert forall|t: int| 0 <= t < walk_node(cfg, n).len() implies lies_under(
                #[trigger] walk_node(cfg, n)[t],
                n.path(),
            ) && unpruned_below(cfg, n.path(), walk_node(cfg, n)[t]) by {
                let x = walk_node(cfg, n)[t];
                if t >= d.len() {
                    assert(x == q[t - d.len()]);
                    assert(child_of(p@, x));
                    assert(x.take(p@.len() as int) == p@);
                }
            }
        },
    }
}

proof fn lemma_first_marker_exists(cfg: Config, s: Seq<Node>, c: int)
    requires
        0 <= c < s.len(),
        is_marker_entry(cfg, s[c]),
    ensures
        has_marker(cfg, s),
        0 <= scan_end(cfg, s) <= c,
        is_first_marker(cfg, s, scan_end(cfg, s)),
    decreases c,
{
    if forall|j: int| 0 <= j < c ==> !is_marker_entry(cfg, #[trigger] s[j]) {
        assert(is_first_marker(cfg, s, c));
        lemma_first_marker_unique(cfg, s, c);
    } else {
        let j = choose|j: int| 0 <= j < c && is_marker_entry(cfg, #[trigger] s[j]);
        lemma_first_marker_exists(cfg, s, j);
    }
}

proof fn lemma_descended_shape(cfg: Config, p: Seq<char>, ch: Vec<Node>, k: int)
    requires
        0 <= k <= ch.len(),
        forall|i: int| 0 <= i < ch.len() ==> child_of(p, #[trigger] ch[i].path()) && well_formed(ch[i]),
    ensures
        forall|t: int|
            0 <= t < descended_upto(cfg, ch, k).len() ==> lies_under(
                #[trigger] descended_upto(cfg, ch, k)[t],
                p,
            ) && unpruned_below(cfg, p, descended_upto(cfg, ch, k)[t]) && deeper_than_child(
                p,
                descended_upto(cfg, ch, k)[t],
            ),
    decreases ch, k,
{
    if k > 0 {
        lemma_descended_shape(cfg, p, ch, k - 1);
        let c = ch[k - 1];
        if is_entered(cfg, c) {
            assert(decreases_to!(ch => ch[k - 1]));
            lemma_walk_shape(cfg, c);
            let prev = descended_upto(cfg, ch, k - 1);
            let w = walk_node(cfg, c);
            assert(child_of(p, c.path()) && well_formed(c));
            assert forall|t: int| 0 <= t < descended_upto(cfg, ch, k).len() implies lies_under(
                #[trigger] descended_upto(cfg, ch, k)[t],
                p,
            ) && unpruned_below(cfg, p, descended_upto(cfg, ch, k)[t]) && deeper_than_child(
                p,
                descended_upto(cfg, ch, k)[t],
            ) by {
                if t >= prev.len() {
                    let x = w[t - prev.len()];
                    assert(descended_upto(cfg, ch, k)[t] == x);
                    let cp = c.path();
                    assert(lies_under(x, cp));
                    assert(x.take(p.len() as int) =~= cp.take(p.len() as int)) by {
                        assert forall|j: int| 0 <= j < p.len() implies x.take(p.len() as int)[j]
                            == cp.take(p.len() as int)[j] by {
                            assert(x[j] == x.take(cp.len() as int)[j]);
                        }
                    }
                    assert(x[p.len() as int] == x.take(cp.len() as int)[p.len() as int]);
                    assert forall|j: int| p.len() < j < x.len() && x[j] == SEP implies !is_pruned(
                        cfg,
                        #[trigger] x.take(j),
                    ) by {
                        if j < cp.len() {
                            assert(x[j] == x.take(cp.len() as int)[j]);
                        }
                    }
                    assert(p.len() < cp.len() < x.len() && x[cp.len() as int] == SEP);
                }
            }
        }
    }
}

/// A file listed in a directory whose listing holds an exclusion marker is
/// never handed on by the walk of that directory, wherever in the listing the
/// marker stands.
pub proof fn marker_suppresses_directory(cfg: Config, dir: Node, i: int)
    requires
        well_formed(dir),
        dir is Dir,
        has_marker(cfg, dir->Dir_1@),
        0 <= i < dir->Dir_1@.len(),
        dir->Dir_1@[i] is File,
    ensures
        !walk_node(cfg, dir).contains(dir->Dir_1@[i].path()),
{
    let ch = dir->Dir_1;
    let c = choose|c: int| 0 <= c < ch@.len() && is_marker_entry(cfg, ch@[c]);
    lemma_first_marker_exists(cfg, ch@, c);
    let e = scan_end(cfg, ch@);
    assert(walk_node(cfg, dir) == descended_upto(cfg, ch, e));
    let dp = dir.path();
    assert forall|j: int| 0 <= j < ch.len() implies child_of(dp, #[trigger] ch[j].path()) && well_formed(ch[j]) by {
        assert(child_of(dp, ch@[j].path()));
    }
    lemma_descended_shape(cfg, dp, ch, e);
    let f = ch@[i].path();
    assert(child_of(dp, f));
    if walk_node(cfg, dir).contains(f) {
        let t = choose|t: int| 0 <= t < walk_node(cfg, dir).len() && #[trigger] walk_node(cfg, dir)[t] == f;
        assert(deeper_than_child(dp, descended_upto(cfg, ch, e)[t]));
    }
}

/// No file handed on by a walk lies below a directory whose path ends with
/// one of the disallowed directory names, at any depth under the root.
pub proof fn disallowed_dir_absent(cfg: Config, root: Node, d: int, x: Seq<char>, k: int)
    requires
        well_formed(root),
        0 <= d < cfg.disallowed_dirs@.len(),
        walk_node(cfg, root).contains(x),
        root.path().len() < k < x.len(),
        x[k] == SEP,
    ensures
        lies_under(x, root.path()),
        !ends_with_components(x.take(k), cfg.disallowed_dirs@[d]@),
{
    lemma_walk_shape(cfg, root);
    let t = choose|t: int| 0 <= t < walk_node(cfg, root).len() && #[trigger] walk_node(cfg, root)[t] == x;
    assert(unpruned_below(cfg, root.path(), walk_node(cfg, root)[t]));
    assert(!is_pruned(cfg, x.take(k)));
}

/// Following listing positions `route` down from `n` ends at a file, through
/// directories that the walk enters: none of them is pruned, each is listed
/// before any exclusion marker of its parent's listing, and the listing that
/// holds the file holds no exclusion marker.
pub open spec fn open_route(cfg: Config, n: Node, route: Seq<int>) -> bool
    decreases route.len(),
{
    match n {
        Node::File(_) => false,
        Node::Dir(_, ch) => {
            &&& route.len() > 0
            &&& 0 <= route[0] < ch.len()
            &&& if route.len() == 1 {
                ch[route[0]] is File && !has_marker(cfg, ch@)
            } else {
                &&& is_entered(cfg, ch[route[0]])
                &&& route[0] < scan_end(cfg, ch@)
                &&& open_route(cfg, ch[route[0]], route.drop_first())
            }
        },
    }
}

/// The path of the entry that listing positions `route` lead to from `n`.
pub open spec fn route_target(n: Node, route: Seq<int>) -> Seq<char>
    decreases route.len(),
{
    if route.len() == 0 {
        n.path()
    } else {
        match n {
            Node::File(p) => p@,
            Node::Dir(p, ch) => if 0 <= route[0] < ch.len() {
                route_target(ch[route[0]], route.drop_first())
            } else {
                p@
            },
        }
    }
}

proof fn lemma_descended_has(cfg: Config, ch: Vec<Node>, k: int, i: int, x: Seq<char>)
    requires
        0 <= i < k <= ch.len(),
        is_entered(cfg, ch[i]),
        walk_node(cfg, ch[i]).contains(x),
    ensures
        descended_upto(cfg, ch, k).contains(x),
    decreases k,
{
    let prev = descended_upto(cfg, ch, k - 1);
    if i < k - 1 {
        lemma_descended_has(cfg, ch, k - 1, i, x);
        let t = choose|t: int| 0 <= t < prev.len() && #[trigger] prev[t] == x;
        if is_entered(cfg, ch[k - 1]) {
            assert(descended_upto(cfg, ch, k)[t] == x);
        }
    } else {
        let w = walk_node(cfg, ch[i]);
        let t = choose|t: int| 0 <= t < w.len() && #[trigger] w[t] == x;
        assert(descended_upto(cfg, ch, k)[prev.len() + t] == x);
    }
}

/// Every file reached through entered, unpruned directories, whose own
/// listing holds no exclusion marker, is handed on by the walk.
pub proof fn listed_file_is_mirrored(cfg: Config, root: Node, route: Seq<int>)
    requires
        open_route(cfg, root, route),
    ensures
        walk_node(cfg, root).contains(route_target(root, route)),
    decreases route.len(),
{
    let ch = root->Dir_1;
    let i = route[0];
    let c = ch[i];
    let x = route_target(root, route);
    let e = scan_end(cfg, ch@);
    if has_marker(cfg, ch@) {
        let m = choose|m: int| 0 <= m < ch@.len() && is_marker_entry(cfg, #[trigger] ch@[m]);
        lemma_first_marker_exists(cfg, ch@, m);
    }
    let d = descended_upto(cfg, ch, e);
    if route.len() == 1 {
        assert(route.drop_first().len() == 0);
        assert(route_target(c, route.drop_first()) == c.path());
        assert(x == c.path());
        lemma_pending_has(ch@, ch.len() as int, i);
        let q = pending_upto(ch@, ch.len() as int);
        let t = choose|t: int| 0 <= t < q.len() && #[trigger] q[t] == x;
        assert(walk_node(cfg, root)[d.len() + t] == x);
    } else {
        listed_file_is_mirrored(cfg, c, route.drop_first());
        lemma_descended_has(cfg, ch, e, i, x);
        let t = choose|t: int| 0 <= t < d.len() && #[trigger] d[t] == x;
        assert(walk_node(cfg, root)[t] == x);
    }
}

/// Listing positions `route` lead from `n` through directories only.
pub open spec fn is_dir_route(n: Node, route: Seq<int>) -> bool
    decreases route.len(),
{
    match n {
        Node::File(_) => false,
        Node::Dir(_, ch) => route.len() == 0 || (0 <= route[0] < ch.len() && is_dir_route(
            ch[route[0]],
            route.drop_first(),
        )),
    }
}

/// The directory that `route` leads to from `n`.
pub open spec fn dir_at(n: Node, route: Seq<int>) -> Node
    decreases route.len(),
{
    if route.len() == 0 {
        n
    } else {
        match n {
            Node::File(_) => n,
            Node::Dir(_, ch) => if 0 <= route[0] < ch.len() {
                dir_at(ch[route[0]], route.drop_first())
            } else {
                n
            },
        }
    }
}

proof fn lemma_under_parent(f: Seq<char>, a: Seq<char>, p: Seq<char>)
    requires
        lies_under(f, a),
        child_of(p, a),
    ensures
        lies_under(f, p),
{
    assert(f.take(p.len() as int) =~= p) by {
        assert forall|j: int| 0 <= j < p.len() implies f.take(p.len() as int)[j] == p[j] by {
            assert(f[j] == f.take(a.len() as int)[j]);
            assert(a[j] == a.take(p.len() as int)[j]);
        }
    }
    assert(f[p.len() as int] == f.take(a.len() as int)[p.len() as int]);
}

proof fn lemma_siblings_same(f: Seq<char>, a: Seq<char>, b: Seq<char>, p: Seq<char>)
    requires
        lies_under(f, a),
        lies_under(f, b),
        child_of(p, a),
        child_of(p, b),
    ensures
        a == b,
{
    if a.len() < b.len() {
        assert(f[a.len() as int] == f.take(b.len() as int)[a.len() as int]);
    } else if b.len() < a.len() {
        assert(f[b.len() as int] == f.take(a.len() as int)[b.len() as int]);
    } else {
        assert(a =~= f.take(a.len() as int));
    }
}

proof fn lemma_child_below_route(n: Node, route: Seq<int>, f: Seq<char>)
    requires
        well_formed(n),
        is_dir_route(n, route),
        child_of(dir_at(n, route).path(), f),
    ensures
        route.len() == 0 ==> child_of(n.path(), f),
        route.len() > 0 ==> lies_under(f, n->Dir_1[route[0]].path()),
    decreases route.len(),
{
    if route.len() > 0 {
        let c = n->Dir_1[route[0]];
        let rest = route.drop_first();
        assert(child_of(n.path(), c.path()) && well_formed(c));
        assert(is_dir_route(c, rest));
        assert(c is Dir);
        lemma_child_below_route(c, rest, f);
        if rest.len() > 0 {
            assert(0 <= rest[0] < c->Dir_1.len());
            let c2 = c->Dir_1[rest[0]];
            assert(child_of(c.path(), c2.path()));
            lemma_under_parent(f, c2.path(), c.path());
        } else {
            assert(f.take(c.path().len() as int) == c.path());
        }
    }
}

proof fn lemma_descended_source(cfg: Config, ch: Vec<Node>, k: int, t: int)
    requires
        0 <= k <= ch.len(),
        0 <= t < descended_upto(cfg, ch, k).len(),
    ensures
        exists|j: int|
            0 <= j < k && is_entered(cfg, ch[j]) && #[trigger] walk_node(cfg, ch[j]).contains(
                descended_upto(cfg, ch, k)[t],
            ),
    decreases k,
{
    let prev = descended_upto(cfg, ch, k - 1);
    let x = descended_upto(cfg, ch, k)[t];
    if t < prev.len() {
        assert(x == prev[t]);
        lemma_descended_source(cfg, ch, k - 1, t);
    } else {
        let w = walk_node(cfg, ch[k - 1]);
        assert(x == w[t - prev.len()]);
        assert(walk_node(cfg, ch[k - 1]).contains(x));
    }
}

/// A file listed in a directory whose listing holds an exclusion marker is
/// never handed on, wherever that directory stands in the walked tree and
/// wherever in its listing the marker stands.
pub proof fn marker_suppresses_nested_directory(cfg: Config, root: Node, route: Seq<int>, i: int)
    requires
        well_formed(root),
        is_dir_route(root, route),
        has_marker(cfg, dir_at(root, route)->Dir_1@),
        0 <= i < dir_at(root, route)->Dir_1@.len(),
        dir_at(root, route)->Dir_1@[i] is File,
    ensures
        !walk_node(cfg, root).contains(dir_at(root, route)->Dir_1@[i].path()),
    decreases route.len(),
{
    let d = dir_at(root, route);
    let f = d->Dir_1@[i].path();
    if route.len() == 0 {
        marker_suppresses_directory(cfg, root, i);
    } else {
        let ch = root->Dir_1;
        let r0 = route[0];
        let c = ch[r0];
        let rest = route.drop_first();
        assert(dir_at(c, rest) == d);
        lemma_dir_at_well_formed(root, route);
        assert(child_of(d.path(), d->Dir_1[i].path()));
        lemma_child_below_route(root, route, f);
        assert(child_of(root.path(), c.path()) && well_formed(c));
        marker_suppresses_nested_directory(cfg, c, rest, i);
        let e = scan_end(cfg, ch@);
        if has_marker(cfg, ch@) {
            let m = choose|m: int| 0 <= m < ch@.len() && is_marker_entry(cfg, #[trigger] ch@[m]);
            lemma_first_marker_exists(cfg, ch@, m);
        }
        let dd = descended_upto(cfg, ch, e);
        let w = walk_node(cfg, root);
        if w.contains(f) {
            let t = choose|t: int| 0 <= t < w.len() && #[trigger] w[t] == f;
            if t < dd.len() {
                assert(dd[t] == f);
                lemma_descended_source(cfg, ch, e, t);
                let j = choose|j: int|
                    0 <= j < e && is_entered(cfg, ch[j]) && #[trigger] walk_node(
                        cfg,
                        ch[j],
                    ).contains(dd[t]);
                assert(child_of(root.path(), ch[j].path()) && well_formed(ch[j]));
                lemma_walk_shape(cfg, ch[j]);
                let wj = walk_node(cfg, ch[j]);
                let tj = choose|tj: int| 0 <= tj < wj.len() && #[trigger] wj[tj] == f;
                assert(lies_under(wj[tj], ch[j].path()));
                lemma_siblings_same(f, c.path(), ch[j].path(), root.path());
                assert(j == r0);
            } else {
                let q = pending_upto(ch@, e);
                assert forall|k: int| 0 <= k < ch@.len() implies child_of(
                    root.path(),
                    #[trigger] ch@[k].path(),
                ) by {
                    assert(child_of(root.path(), ch[k].path()));
                }
                lemma_pending_shape(root.path(), ch@, e);
                assert(q[t - dd.len()] == f);
                assert(child_of(root.path(), f));
                assert(f[c.path().len() as int] == SEP);
            }
        }
    }
}

proof fn lemma_dir_at_well_formed(n: Node, route: Seq<int>)
    requires
        well_formed(n),
        is_dir_route(n, route),
    ensures
        well_formed(dir_at(n, route)),
        dir_at(n, route) is Dir,
    decreases route.len(),
{
    if route.len() > 0 {
        match n {
            Node::Dir(p, ch) => {
                assert(0 <= route[0] < ch.len());
                let c = ch[route[0]];
                assert(child_of(p@, c.path()));
                assert(well_formed(c));
                assert(dir_at(n, route) == dir_at(c, route.drop_first()));
                lemma_dir_at_well_formed(c, route.drop_first());
            },
            Node::File(_) => {},
        }
    }
}

} // verus!
