//! The directory tree walker: from a starting absolute directory, the
//! candidate fragment path of every ancestor directory, nearest first.
//!
//! The walker is a pure function of the starting directory; it probes
//! nothing. Callers filter the candidates by existence and read the files.
use vstd::prelude::*;
use vstd::string::*;

verus! {

/// Index of the last '/' in `p`, or -1 when there is none.
pub open spec fn last_slash(p: Seq<char>) -> int
    decreases p.len(),
{
    if p.len() == 0 {
        -1
    } else if p[p.len() - 1] == '/' {
        p.len() - 1
    } else {
        last_slash(p.drop_last())
    }
}

/// The parent directory: everything before the last '/', or the root for a
/// top-level directory.
pub open spec fn parent_dir(p: Seq<char>) -> Seq<char> {
    let j = last_slash(p);
    if 1 <= j < p.len() {
        p.subrange(0, j)
    } else {
        seq!['/']
    }
}

/// The ancestor chain: the directory itself first, then each parent up to
/// and including the root.
pub open spec fn ancestor_dirs(p: Seq<char>) -> Seq<Seq<char>>
    decreases p.len(),
{
    if p.len() <= 1 {
        seq![p]
    } else {
        seq![p] + ancestor_dirs(parent_dir(p))
    }
}

/// The candidate fragment path probed in directory `d`: the fixed relative
/// subpath `.cargo/config` under `d`.
pub open spec fn candidate_of(d: Seq<char>) -> Seq<char> {
    if d.len() <= 1 {
        "/.cargo/config"@
    } else {
        d + "/.cargo/config"@
    }
}

/// A normalized absolute directory: it begins with '/', has no empty
/// component, and no trailing '/' except as the root itself.
pub open spec fn normalized_dir(p: Seq<char>) -> bool {
    &&& p.len() >= 1
    &&& p[0] == '/'
    &&& (p.len() == 1 || p[p.len() - 1] != '/')
    &&& forall|t: int| 0 <= t < p.len() - 1 ==> !((#[trigger] p[t]) == '/' && p[t + 1] == '/')
}

/// A position that holds '/' with none after it is the last slash.
proof fn lemma_last_slash(p: Seq<char>, j: int)
    requires
        0 <= j < p.len(),
        p[j] == '/',
        forall|t: int| j < t < p.len() ==> p[t] != '/',
    ensures
        last_slash(p) == j,
    decreases p.len(),
{
    if p[p.len() - 1] != '/' {
        assert(j < p.len() - 1);
        assert(forall|t: int| j < t < p.drop_last().len() ==> p.drop_last()[t] != '/');
        lemma_last_slash(p.drop_last(), j);
    }
}

/// The greatest index of '/' in `s`, which starts with one.
#[verifier::loop_isolation(false)]
fn rfind_slash(s: &str) -> (j: usize)
    requires
        s@.len() >= 1,
        s@[0] == '/',
    ensures
        j == last_slash(s@),
        j < s@.len(),
        s@[j as int] == '/',
        forall|t: int| j < t < s@.len() ==> s@[t] != '/',
{
    let n = s.unicode_len();
    let mut j: usize = n - 1;
    while s.get_char(j) != '/'
        invariant
            0 <= j < n,
            n == s@.len(),
            forall|t: int| j < t < n ==> s@[t] != '/',
        decreases j,
    {
        assert(j > 0);
        j -= 1;
    }
    proof {
        lemma_last_slash(s@, j as int);
    }
    j
}

/// The parent of a non-root directory in the chain.
fn parent_of(d: &String) -> (p: String)
    requires
        d@.len() > 1,
        normalized_dir(d@),
    ensures
        p@ == parent_dir(d@),
        p@.len() < d@.len(),
        normalized_dir(p@),
{
    let j = rfind_slash(d.as_str());
    if j == 0 {
        let r = "/".to_owned();
        proof {
            reveal_strlit("/");
            assert(r@ =~= seq!['/']);
        }
        r
    } else {
        let r = d.as_str().substring_char(0, j).to_owned();
        proof {
            assert(r@ =~= parent_dir(d@));
            assert(r@[r@.len() - 1] == d@[j - 1]);
            assert(normalized_dir(r@));
        }
        r
    }
}

/// The candidate fragment path for directory `d`.
fn candidate_for(d: &String) -> (c: String)
    requires
        d@.len() >= 1,
        d@[0] == '/',
    ensures
        c@ == candidate_of(d@),
{
    if d.as_str().unicode_len() <= 1 {
        "/.cargo/config".to_owned()
    } else {
        d.clone().concat("/.cargo/config")
    }
}

/// Every candidate fragment path from `pwd` up to the filesystem root,
/// nearest first: one candidate per ancestor directory. Existence filtering
/// and reading are the caller's.
#[verifier::loop_isolation(false)]
pub fn candidate_paths(pwd: &str) -> (r: Vec<String>)
    requires
        normalized_dir(pwd@),
    ensures
        r@.len() == ancestor_dirs(pwd@).len(),
        forall|i: int|
            0 <= i < r@.len() ==> (#[trigger] r@[i])@ == candidate_of(ancestor_dirs(pwd@)[i]),
{
    let mut cur: String = pwd.to_owned();
    let mut r: Vec<String> = Vec::new();
    let ghost mut dirs: Seq<Seq<char>> = Seq::empty();
    let c0 = candidate_for(&cur);
    r.push(c0);
    proof {
        dirs = dirs.push(cur@);
        assert(ancestor_dirs(pwd@) =~= dirs + ancestor_dirs(cur@).skip(1));
    }
    while cur.as_str().unicode_len() > 1
        invariant
            normalized_dir(cur@),
            dirs.len() == r@.len(),
            r@.len() >= 1,
            forall|t: int| 0 <= t < r@.len() ==> (#[trigger] r@[t])@ == candidate_of(dirs[t]),
            ancestor_dirs(pwd@) == dirs + ancestor_dirs(cur@).skip(1),
        decreases cur@.len(),
    {
        let ghost cur_old = cur@;
        let p = parent_of(&cur);
        cur = p;
        let c = candidate_for(&cur);
        r.push(c);
        proof {
            assert(ancestor_dirs(cur_old) == seq![cur_old] + ancestor_dirs(cur@));
            assert(ancestor_dirs(cur_old).skip(1) =~= ancestor_dirs(cur@));
            assert(ancestor_dirs(cur@) =~= seq![cur@] + ancestor_dirs(cur@).skip(1));
            let ghost dirs_old = dirs;
            dirs = dirs.push(cur@);
            assert(dirs + ancestor_dirs(cur@).skip(1) =~= dirs_old + ancestor_dirs(
                cur_old,
            ).skip(1));
        }
    }
    proof {
        assert(ancestor_dirs(cur@) =~= seq![cur@]);
        assert(ancestor_dirs(cur@).skip(1) =~= Seq::<Seq<char>>::empty());
        assert(ancestor_dirs(pwd@) =~= dirs);
    }
    r
}

} // verus!
