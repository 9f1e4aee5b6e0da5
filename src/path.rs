use vstd::prelude::*;
use crate::config::Config;

verus! {

/// The character that separates the components of a path.
pub const SEP: char = '\\';

/// `i` is the position of the first separator in `s`.
pub open spec fn is_first_sep(s: Seq<char>, i: int) -> bool {
    &&& 0 <= i < s.len()
    &&& s[i] == SEP
    &&& forall|j: int| 0 <= j < i ==> s[j] != SEP
}

pub open spec fn has_sep(s: Seq<char>) -> bool {
    exists|i: int| is_first_sep(s, i)
}

/// Number of characters of the volume-root prefix of `s`: everything up to and
/// including the first separator.
pub open spec fn volume_prefix_len(s: Seq<char>) -> int
    recommends
        has_sep(s),
{
    (choose|i: int| is_first_sep(s, i)) + 1
}

/// `p` ends with the components of `d`: the whole of `p`, or a tail of it that
/// starts right after a separator. An empty `d` is a suffix of every path.
pub open spec fn ends_with_components(p: Seq<char>, d: Seq<char>) -> bool {
    ||| d.len() == 0
    ||| p == d
    ||| (d.len() < p.len() && p.skip(p.len() - d.len()) == d && p[p.len() - d.len() - 1] == SEP)
}

/// What remains of `rest` once the leading components `base` are taken off,
/// or `None` when `rest` does not begin with them.
pub open spec fn strip_components(rest: Seq<char>, base: Seq<char>) -> Option<Seq<char>> {
    if base.len() == 0 {
        Some(rest)
    } else if rest == base {
        Some(Seq::empty())
    } else if base.len() < rest.len() && rest.take(base.len() as int) == base && rest[base.len()
        as int] == SEP {
        Some(rest.skip(base.len() + 1int))
    } else {
        None
    }
}

/// `b` appended to `a` as further components.
pub open spec fn join(a: Seq<char>, b: Seq<char>) -> Seq<char> {
    if b.len() == 0 {
        a
    } else if a.len() == 0 || a.last() == SEP {
        a + b
    } else {
        a + seq![SEP] + b
    }
}

/// The destination of source path `p`: its volume prefix, then `dst`, then the
/// part of `p` below the prefix and `src`. `None` where `p` has no volume
/// prefix or does not lie under `src`.
pub open spec fn mapped_path(p: Seq<char>, src: Seq<char>, dst: Seq<char>) -> Option<Seq<char>> {
    if !has_sep(p) {
        None
    } else {
        let k = volume_prefix_len(p);
        match strip_components(p.skip(k), src) {
            Some(common) => Some(join(join(p.take(k), dst), common)),
            None => None,
        }
    }
}

/// The first separator of a path is the one its volume prefix ends with.
pub proof fn lemma_first_sep_unique(s: Seq<char>, i: int)
    requires
        is_first_sep(s, i),
    ensures
        has_sep(s),
        volume_prefix_len(s) == i + 1,
{
    let c = choose|c: int| is_first_sep(s, c);
    assert(is_first_sep(s, c));
    if c < i {
        assert(s[c] != SEP);
    } else if i < c {
        assert(s[i] != SEP);
    }
}

/// Whether `s` holds `t` at position `at`.
fn holds_at(s: &str, at: usize, t: &str) -> (r: bool)
    requires
        at <= s@.len(),
    ensures
        r == (at + t@.len() <= s@.len() && s@.subrange(at as int, at + t@.len()) == t@),
{
    let n = s.unicode_len();
    let m = t.unicode_len();
    if m > n - at {
        return false;
    }
    let mut j: usize = 0;
    while j < m
        invariant
            n == s@.len(),
            m == t@.len(),
            at + m <= n,
            j <= m,
            forall|k: int| 0 <= k < j ==> s@[at + k] == t@[k],
        decreases m - j,
    {
        if s.get_char(at + j) != t.get_char(j) {
            assert(s@.subrange(at as int, at + m)[j as int] != t@[j as int]);
            return false;
        }
        j = j + 1;
    }
    assert(s@.subrange(at as int, at + m) =~= t@);
    true
}

/// `s` ends with the components of `d` (see `ends_with_components`).
pub fn path_ends_with(s: &str, d: &str) -> (r: bool)
    ensures
        r == ends_with_components(s@, d@),
{
    let n = s.unicode_len();
    let m = d.unicode_len();
    if m == 0 {
        return true;
    }
    if m > n {
        proof {
            if s@ == d@ {
                assert(s@.len() == d@.len());
            }
        }
        return false;
    }
    let tail = holds_at(s, n - m, d);
    proof {
        assert(s@.subrange(n - m, n - m + m) =~= s@.skip(n - m));
        if s@ == d@ {
            assert(s@.skip(0) =~= s@);
        }
    }
    if !tail {
        return false;
    }
    if m == n {
        proof {
            assert(s@ =~= s@.skip(0));
        }
        return true;
    }
    s.get_char(n - m - 1) == SEP
}

/// Appends `b` to `out` as further components.
fn push_components(out: &mut String, b: &str)
    ensures
        final(out)@ == join(old(out)@, b@),
{
    let m = b.unicode_len();
    if m == 0 {
        return;
    }
    let n = out.as_str().unicode_len();
    if n == 0 || out.as_str().get_char(n - 1) == SEP {
        out.append(b);
    } else {
        let sep = "\\";
        proof {
            reveal_strlit("\\");
        }
        out.append(sep);
        out.append(b);
    }
}

/// Maps a source path to its place in the mirror: the same volume prefix,
/// then `config.dst`, then the path's part below `config.src`.
pub fn map_path(config: &Config, source: &str) -> (r: Option<String>)
    ensures
        match r {
            Some(d) => mapped_path(source@, config.src@, config.dst@) == Some(d@),
            None => mapped_path(source@, config.src@, config.dst@) is None,
        },
{
    let n = source.unicode_len();
    let mut i: usize = 0;
    while i < n && source.get_char(i) != SEP
        invariant
            n == source@.len(),
            i <= n,
            forall|j: int| 0 <= j < i ==> source@[j] != SEP,
        decreases n - i,
    {
        i = i + 1;
    }
    if i == n {
        proof {
            if has_sep(source@) {
                let c = choose|c: int| is_first_sep(source@, c);
                assert(source@[c] == SEP);
            }
        }
        return None;
    }
    proof {
        lemma_first_sep_unique(source@, i as int);
    }
    let k = i + 1;
    let src = config.src.as_str();
    let m = src.unicode_len();
    let rest = source.substring_char(k, n);
    let common: &str;
    if m == 0 {
        common = rest;
    } else if !holds_at(source, k, src) {
        proof {
            if k + m <= n {
                assert(rest@.take(m as int) =~= source@.subrange(k as int, k + m));
            }
            if rest@ == src@ {
                assert(rest@.take(m as int) =~= rest@);
            }
        }
        return None;
    } else if k + m == n {
        proof {
            assert(rest@ =~= source@.subrange(k as int, k + m));
        }
        common = source.substring_char(n, n);
    } else if source.get_char(k + m) == SEP {
        proof {
            assert(rest@.take(m as int) =~= source@.subrange(k as int, k + m));
            assert(rest@.skip(m + 1) =~= source@.subrange(k + m + 1, n as int));
            assert(rest@[m as int] == source@[k + m]);
            assert(rest@.len() != src@.len());
        }
        common = source.substring_char(k + m + 1, n);
    } else {
        proof {
            assert(rest@[m as int] == source@[k + m]);
            assert(rest@.len() != src@.len());
        }
        return None;
    }
    let mut out = String::from_str(source.substring_char(0, k));
    push_components(&mut out, config.dst.as_str());
    push_components(&mut out, common);
    proof {
        assert(source@.skip(k as int) =~= rest@);
        assert(source@.take(k as int) =~= source@.subrange(0, k as int));
        if m == 0 {
        } else if k + m == n {
            assert(common@ =~= Seq::<char>::empty());
        }
    }
    Some(out)
}

/// `c` separates path components: either slash.
pub open spec fn is_separator(c: char) -> bool {
    c == SEP || c == '/'
}

/// The first `k` characters of `s` with each separator written as `SEP` and
/// no empty component: no leading separator, none doubled.
pub open spec fn tidy_upto(s: Seq<char>, k: int) -> Seq<char>
    decreases k,
{
    if k <= 0 {
        Seq::empty()
    } else {
        let prev = tidy_upto(s, k - 1);
        if is_separator(s[k - 1]) {
            if prev.len() == 0 || prev.last() == SEP {
                prev
            } else {
                prev.push(SEP)
            }
        } else {
            prev.push(s[k - 1])
        }
    }
}

/// `s` as a relative path of plain components: separators written as `SEP`,
/// empty components (leading, doubled or trailing separators) dropped.
pub open spec fn normalized(s: Seq<char>) -> Seq<char> {
    let t = tidy_upto(s, s.len() as int);
    if t.len() > 0 && t.last() == SEP {
        t.drop_last()
    } else {
        t
    }
}

/// Writes a relative path as plain components (see `normalized`).
pub fn normalize(s: &str) -> (r: String)
    ensures
        r@ == normalized(s@),
{
    let n = s.unicode_len();
    let mut out = String::new();
    let sep = "\\";
    proof {
        reveal_strlit("\\");
    }
    let mut i: usize = 0;
    while i < n
        invariant
            n == s@.len(),
            i <= n,
            sep@ == seq![SEP],
            out@ == tidy_upto(s@, i as int),
        decreases n - i,
    {
        let c = s.get_char(i);
        if c == SEP || c == '/' {
            let m = out.as_str().unicode_len();
            if m > 0 && out.as_str().get_char(m - 1) != SEP {
                out.append(sep);
            }
        } else {
            out.append(s.substring_char(i, i + 1));
            assert(s@.subrange(i as int, i + 1) =~= seq![c]);
        }
        i = i + 1;
    }
    let m = out.as_str().unicode_len();
    if m > 0 && out.as_str().get_char(m - 1) == SEP {
        let r = String::from_str(out.as_str().substring_char(0, m - 1));
        assert(r@ =~= out@.drop_last());
        r
    } else {
        out
    }
}

} // verus!
