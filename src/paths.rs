use vstd::prelude::*;

use crate::text::{char_vec, chars_equal, split_by, split_chars, string_of};

verus! {

/// The pieces of `p` between `/` separators.
pub open spec fn segments(p: Seq<char>) -> Seq<Seq<char>> {
    split_by(p, '/')
}

/// The component that stands for the root directory.
pub open spec fn root_comp() -> Seq<char> {
    seq!['/']
}

pub open spec fn is_rooted(p: Seq<char>) -> bool {
    p.len() > 0 && p[0] == '/'
}

/// A piece is a component unless it is empty, or a `.` after the first piece.
pub open spec fn kept(seg: Seq<char>, i: int) -> bool {
    seg.len() > 0 && (seg != seq!['.'] || i == 0)
}

pub open spec fn kept_upto(segs: Seq<Seq<char>>, n: int) -> Seq<Seq<char>>
    decreases n,
{
    if n <= 0 || n > segs.len() {
        seq![]
    } else {
        kept_upto(segs, n - 1) + if kept(segs[n - 1], n - 1) {
            seq![segs[n - 1]]
        } else {
            seq![]
        }
    }
}

/// The components of `p`: the root (as `/`) when `p` starts with `/`, then
/// each non-empty piece, dropping `.` except at the very start.
pub open spec fn components(p: Seq<char>) -> Seq<Seq<char>> {
    let segs = segments(p);
    (if is_rooted(p) {
        seq![root_comp()]
    } else {
        seq![]
    }) + kept_upto(segs, segs.len() as int)
}

/// `base`'s components begin `path`'s.
pub open spec fn strips(base: Seq<char>, path: Seq<char>) -> bool {
    components(base).len() <= components(path).len() && components(path).take(
        components(base).len() as int,
    ) == components(base)
}

/// Components joined by `/`, the root left out.
pub open spec fn join_comps(cs: Seq<Seq<char>>) -> Seq<char>
    decreases cs.len(),
{
    if cs.len() == 0 {
        seq![]
    } else {
        let init = join_comps(cs.drop_last());
        if cs.last() == root_comp() {
            init
        } else if init.len() == 0 {
            cs.last()
        } else {
            init + seq!['/'] + cs.last()
        }
    }
}

/// `path` relative to `base` with `/` separators: `.` when nothing is left,
/// and a leading `/` for an absolute path outside `base`.
pub open spec fn normalized(base: Seq<char>, path: Seq<char>) -> Seq<char> {
    let rel = if strips(base, path) {
        components(path).skip(components(base).len() as int)
    } else {
        components(path)
    };
    let joined = join_comps(rel);
    if joined.len() == 0 {
        seq!['.']
    } else if is_rooted(path) && !strips(base, path) {
        seq!['/'] + joined
    } else {
        joined
    }
}

fn components_of(p: &Vec<char>) -> (r: Vec<Vec<char>>)
    ensures
        r@.map_values(|s: Vec<char>| s@) == components(p@),
{
    let segs = split_chars(p, '/');
    let ghost sv = segs@.map_values(|s: Vec<char>| s@);
    let mut out: Vec<Vec<char>> = Vec::new();
    let rooted = p.len() > 0 && p[0] == '/';
    let ghost head: Seq<Seq<char>> = if rooted { seq![root_comp()] } else { seq![] };
    if rooted {
        let mut root: Vec<char> = Vec::new();
        root.push('/');
        out.push(root);
        assert(out@.map_values(|s: Vec<char>| s@) =~= head);
    } else {
        assert(out@.map_values(|s: Vec<char>| s@) =~= head);
    }
    let mut i: usize = 0;
    while i < segs.len()
        invariant
            i <= segs@.len(),
            sv == segs@.map_values(|s: Vec<char>| s@),
            out@.map_values(|s: Vec<char>| s@) == head + kept_upto(sv, i as int),
        decreases segs@.len() - i,
    {
        let seg = &segs[i];
        let keep = seg.len() > 0 && (i == 0 || !(seg.len() == 1 && seg[0] == '.'));
        proof {
            if seg@.len() == 1 && seg@[0] == '.' {
                assert(seg@ =~= seq!['.']);
            }
            if seg@ == seq!['.'] {
                assert(seg@.len() == 1 && seg@[0] == '.');
            }
            assert(keep == kept(sv[i as int], i as int));
        }
        let ghost before = out@;
        if keep {
            out.push(seg.clone());
            assert(out@.map_values(|s: Vec<char>| s@) =~= before.map_values(|s: Vec<char>| s@).push(
                sv[i as int],
            ));
            assert(head + kept_upto(sv, i + 1) =~= (head + kept_upto(sv, i as int)).push(sv[i as int]));
        } else {
            assert(kept_upto(sv, i + 1) =~= kept_upto(sv, i as int));
        }
        i = i + 1;
    }
    out
}

/// Joins `cs[lo..]` by `/`, leaving the root out.
fn join_from(cs: &Vec<Vec<char>>, lo: usize) -> (r: Vec<char>)
    requires
        lo <= cs@.len(),
    ensures
        r@ == join_comps(cs@.map_values(|s: Vec<char>| s@).skip(lo as int)),
{
    let ghost all = cs@.map_values(|s: Vec<char>| s@);
    let mut r: Vec<char> = Vec::new();
    let mut i: usize = lo;
    proof {
        assert(all.skip(lo as int).take(0) =~= Seq::<Seq<char>>::empty());
    }
    while i < cs.len()
        invariant
            lo <= i <= cs@.len(),
            all == cs@.map_values(|s: Vec<char>| s@),
            r@ == join_comps(all.subrange(lo as int, i as int)),
        decreases cs@.len() - i,
    {
        let c = &cs[i];
        let ghost prev = r@;
        let ghost next = all.subrange(lo as int, i + 1);
        assert(next.drop_last() =~= all.subrange(lo as int, i as int));
        assert(next.last() == c@);
        let is_root = c.len() == 1 && c[0] == '/';
        proof {
            if c@.len() == 1 && c@[0] == '/' {
                assert(c@ =~= root_comp());
            }
            if c@ == root_comp() {
                assert(c@.len() == 1 && c@[0] == '/');
            }
        }
        if !is_root {
            if r.len() > 0 {
                r.push('/');
            }
            let mut j: usize = 0;
            let ghost mid = r@;
            while j < c.len()
                invariant
                    j <= c@.len(),
                    r@ == mid + c@.subrange(0, j as int),
                decreases c@.len() - j,
            {
                r.push(c[j]);
                j = j + 1;
                assert(r@ =~= mid + c@.subrange(0, j as int));
            }
            assert(c@.subrange(0, j as int) =~= c@);
            proof {
                if prev.len() == 0 {
                    assert(r@ =~= c@);
                } else {
                    assert(r@ =~= prev + seq!['/'] + c@);
                }
            }
        }
        i = i + 1;
    }
    assert(all.subrange(lo as int, i as int) =~= all.skip(lo as int));
    r
}

/// Whether a root-relative path lies in the version-control metadata
/// directory: its first piece is `.git`.
pub fn is_vcs_metadata(rel: &str) -> (r: bool)
    ensures
        r == (segments(rel@)[0] == ".git"@),
{
    let cs = char_vec(rel);
    let segs = split_chars(&cs, '/');
    let git = char_vec(".git");
    assert(split_by(cs@, '/').len() > 0);
    assert(segs@.map_values(|s: Vec<char>| s@).len() == segs@.len());
    assert(segs@.map_values(|s: Vec<char>| s@)[0] == segs@[0]@);
    chars_equal(&segs[0], &git)
}

/// Whether `path` is absolute: it starts with `/`.
pub fn is_effectively_absolute(path: &str) -> (r: bool)
    ensures
        r == is_rooted(path@),
{
    let p = char_vec(path);
    p.len() > 0 && p[0] == '/'
}

/// Returns `path` relative to `base`, with forward slashes: `.` when nothing
/// is left, and a leading `/` when `path` is absolute but not under `base`.
pub fn normalize_path(base: &str, path: &str) -> (r: String)
    ensures
        r@ == normalized(base@, path@),
{
    let b = char_vec(base);
    let p = char_vec(path);
    let bc = components_of(&b);
    let pc = components_of(&p);
    let ghost bv = bc@.map_values(|s: Vec<char>| s@);
    let ghost pv = pc@.map_values(|s: Vec<char>| s@);
    let mut strip = bc.len() <= pc.len();
    let mut i: usize = 0;
    while strip && i < bc.len()
        invariant
            i <= bc@.len(),
            bv == bc@.map_values(|s: Vec<char>| s@),
            pv == pc@.map_values(|s: Vec<char>| s@),
            bv == components(base@),
            pv == components(path@),
            strip ==> bc@.len() <= pc@.len() && forall|j: int| 0 <= j < i ==> bv[j] == pv[j],
            !strip ==> !strips(base@, path@),
        decreases bc@.len() - i,
    {
        if !chars_equal(&bc[i], &pc[i]) {
            assert(pv.take(bv.len() as int)[i as int] != bv[i as int]);
            strip = false;
        }
        i = i + 1;
    }
    if strip {
        assert(pv.take(bv.len() as int) =~= bv);
    }
    let from: usize = if strip { bc.len() } else { 0 };
    assert(pv.skip(0) =~= pv);
    let joined = join_from(&pc, from);
    if joined.len() == 0 {
        let mut dot: Vec<char> = Vec::new();
        dot.push('.');
        assert(dot@ =~= seq!['.']);
        string_of(&dot)
    } else if is_effectively_absolute(path) && !strip {
        let mut out: Vec<char> = Vec::new();
        out.push('/');
        let mut j: usize = 0;
        while j < joined.len()
            invariant
                j <= joined@.len(),
                out@ == seq!['/'] + joined@.subrange(0, j as int),
            decreases joined@.len() - j,
        {
            out.push(joined[j]);
            j = j + 1;
            assert(out@ =~= seq!['/'] + joined@.subrange(0, j as int));
        }
        assert(joined@.subrange(0, j as int) =~= joined@);
        string_of(&out)
    } else {
        string_of(&joined)
    }
}

} // verus!
