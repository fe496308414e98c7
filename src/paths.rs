use vstd::prelude::*;
use vstd::slice::{slice_subrange, slice_to_vec};

verus! {

/// The byte that separates path components.
pub const SLASH: u8 = 47;

pub open spec fn no_slash(s: Seq<u8>) -> bool {
    forall|k: int| 0 <= k < s.len() ==> s[k] != SLASH
}

/// `p` without the slashes that end it.
pub open spec fn trimmed_len(p: Seq<u8>) -> int
    decreases p.len(),
{
    if p.len() > 0 && p.last() == SLASH {
        trimmed_len(p.drop_last())
    } else {
        p.len() as int
    }
}

/// `base` names a directory that holds `path`, and `rest` is the path
/// below it; an empty `base` holds every path as it is.
pub open spec fn strips_to(path: Seq<u8>, base: Seq<u8>, rest: Seq<u8>) -> bool {
    if base.len() == 0 {
        rest == path
    } else {
        &&& path.len() > base.len()
        &&& path.subrange(0, base.len() as int) == base
        &&& path[base.len() as int] == SLASH
        &&& rest == path.subrange((base.len() + 1) as int, path.len() as int)
    }
}

/// The path of `path` below the directory `base`; `None` when `base` does
/// not hold it.
pub fn strip_dir_prefix(path: &[u8], base: &[u8]) -> (r: Option<Vec<u8>>)
    ensures
        r is Some <==> exists|rest: Seq<u8>| strips_to(path@, base@, rest),
        r matches Some(v) ==> strips_to(path@, base@, v@),
{
    if base.len() == 0 {
        let v = slice_to_vec(path);
        assert(strips_to(path@, base@, v@));
        return Some(v);
    }
    if path.len() <= base.len() || path[base.len()] != SLASH {
        return None;
    }
    let mut i: usize = 0;
    while i < base.len()
        invariant
            0 <= i <= base@.len(),
            base@.len() < path@.len(),
            forall|k: int| 0 <= k < i ==> path@[k] == base@[k],
        decreases base@.len() - i,
    {
        if path[i] != base[i] {
            assert(path@.subrange(0, base@.len() as int)[i as int] != base@[i as int]);
            return None;
        }
        i = i + 1;
    }
    assert(path@.subrange(0, base@.len() as int) =~= base@);
    let v = slice_to_vec(slice_subrange(path, base.len() + 1, path.len()));
    assert(strips_to(path@, base@, v@));
    Some(v)
}

/// Where the last slash before `e` stands, or 0 when there is none.
pub open spec fn last_slash_before(p: Seq<u8>, e: int) -> int
    decreases e,
{
    if e <= 0 {
        0
    } else if p[e - 1] == SLASH {
        e - 1
    } else {
        last_slash_before(p, e - 1)
    }
}

/// The length of the directory that holds `p`, once the slashes that end
/// `p` are dropped: what comes before its last slash, or nothing.
pub open spec fn parent_len_spec(p: Seq<u8>) -> int {
    last_slash_before(p, trimmed_len(p))
}

proof fn lemma_trimmed_len_bound(p: Seq<u8>)
    ensures
        0 <= trimmed_len(p) <= p.len(),
    decreases p.len(),
{
    if p.len() > 0 && p.last() == SLASH {
        lemma_trimmed_len_bound(p.drop_last());
    }
}

proof fn lemma_last_slash_bound(p: Seq<u8>, e: int)
    ensures
        0 <= last_slash_before(p, e),
        e >= 0 ==> last_slash_before(p, e) <= e,
    decreases e,
{
    if e > 0 && p[e - 1] != SLASH {
        lemma_last_slash_bound(p, e - 1);
    }
}

/// The length of `p` without the slashes that end it.
pub fn trim_len(p: &[u8]) -> (r: usize)
    ensures
        r == trimmed_len(p@),
{
    let mut end: usize = p.len();
    assert(p@.subrange(0, end as int) =~= p@);
    while end > 0 && p[end - 1] == SLASH
        invariant
            0 <= end <= p@.len(),
            trimmed_len(p@.subrange(0, end as int)) == trimmed_len(p@),
        decreases end,
    {
        assert(p@.subrange(0, end - 1) =~= p@.subrange(0, end as int).drop_last());
        end = end - 1;
    }
    assert(trimmed_len(p@.subrange(0, end as int)) == end);
    end
}

/// The length of the directory that holds `p`.
pub fn parent_len(p: &[u8]) -> (r: usize)
    ensures
        r == parent_len_spec(p@),
{
    let end = trim_len(p);
    proof {
        lemma_trimmed_len_bound(p@);
    }
    let mut i: usize = end;
    while i > 0 && p[i - 1] != SLASH
        invariant
            0 <= i <= end,
            end == trimmed_len(p@),
            end <= p@.len(),
            last_slash_before(p@, i as int) == parent_len_spec(p@),
        decreases i,
    {
        i = i - 1;
    }
    if i == 0 {
        0
    } else {
        i - 1
    }
}

/// The path a file gets in the archive: below the parent of `root` when
/// the root directory itself is kept, below `root` when it is not.
pub fn archive_path(path: &[u8], root: &[u8], include_root: bool) -> (r: Option<Vec<u8>>)
    ensures
        include_root ==> (r is Some <==> exists|rest: Seq<u8>|
            strips_to(path@, root@.subrange(0, parent_len_spec(root@)), rest)),
        include_root ==> (r matches Some(v) ==> strips_to(
            path@,
            root@.subrange(0, parent_len_spec(root@)),
            v@,
        )),
        !include_root ==> (r is Some <==> exists|rest: Seq<u8>|
            strips_to(path@, root@.subrange(0, trimmed_len(root@)), rest)),
        !include_root ==> (r matches Some(v) ==> strips_to(
            path@,
            root@.subrange(0, trimmed_len(root@)),
            v@,
        )),
{
    let n = if include_root {
        parent_len(root)
    } else {
        trim_len(root)
    };
    proof {
        lemma_trimmed_len_bound(root@);
        lemma_last_slash_bound(root@, trimmed_len(root@));
    }
    strip_dir_prefix(path, slice_subrange(root, 0, n))
}

} // verus!
