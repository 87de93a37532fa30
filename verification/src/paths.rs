//! Absolute paths over the filesystem tree: splitting a path string into
//! components, resolving components against the live tree, and joining
//! components back into a canonical path string.
use vstd::prelude::*;
use vstd::string::*;

use crate::fs::{
    dot_name, dotdot_name, is_dot_name, lemma_entries_live, lemma_node_kind, lemma_parent_of_edge,
    lemma_root, valid_name, FsError, FsIndex, FsTree,
};

verus! {

/// Splitting, one character at a time: `cur` is the run of non-separator
/// characters read so far, `acc` the components already finished. Empty
/// components (from repeated or trailing separators) are dropped.
pub open spec fn split_acc(p: Seq<char>, cur: Seq<char>, acc: Seq<Seq<char>>) -> Seq<Seq<char>>
    decreases p.len(),
{
    if p.len() == 0 {
        if cur.len() > 0 {
            acc.push(cur)
        } else {
            acc
        }
    } else if p[0] == '/' {
        split_acc(
            p.drop_first(),
            Seq::empty(),
            if cur.len() > 0 {
                acc.push(cur)
            } else {
                acc
            },
        )
    } else {
        split_acc(p.drop_first(), cur.push(p[0]), acc)
    }
}

/// The non-empty components of a path string.
pub open spec fn path_components(p: Seq<char>) -> Seq<Seq<char>> {
    split_acc(p, Seq::empty(), Seq::empty())
}

/// `/`-separated concatenation, one leading separator per component.
pub open spec fn join_parts(comps: Seq<Seq<char>>) -> Seq<char>
    decreases comps.len(),
{
    if comps.len() == 0 {
        Seq::empty()
    } else {
        join_parts(comps.drop_last()) + seq!['/'] + comps.last()
    }
}

/// The absolute path string spelling the given components; the empty list
/// spells the root `/`.
pub open spec fn join_abs(comps: Seq<Seq<char>>) -> Seq<char> {
    if comps.len() == 0 {
        seq!['/']
    } else {
        join_parts(comps)
    }
}

/// The node reached from `cur` by looking up `comps[i..]` in turn, `None` as
/// soon as a component is missing or a non-directory is traversed into.
pub open spec fn resolve_from(t: FsTree, cur: int, comps: Seq<Seq<char>>, i: int) -> Option<int>
    decreases comps.len() - i,
    when 0 <= i <= comps.len()
{
    if i >= comps.len() {
        Some(cur)
    } else if t.is_dir_at(cur) && t.entries_at(cur).contains_key(comps[i]) {
        resolve_from(t, t.entries_at(cur)[comps[i]], comps, i + 1)
    } else {
        None
    }
}

/// The node an absolute path names, if any.
pub open spec fn resolve_abs(t: FsTree, p: Seq<char>) -> Option<int> {
    resolve_from(t, 0, path_components(p), 0)
}

/// Dropping the last component, if there is one.
pub open spec fn pop_comp(out: Seq<Seq<char>>) -> Seq<Seq<char>> {
    if out.len() > 0 {
        out.drop_last()
    } else {
        out
    }
}

/// Canonicalization, one component at a time: `.` and empty components are
/// skipped, `..` pops the output and follows the tree's own `..` entry, and
/// any other component must exist under the tracked directory `cur`.
pub open spec fn canon_from(
    t: FsTree,
    comps: Seq<Seq<char>>,
    i: int,
    out: Seq<Seq<char>>,
    cur: int,
) -> Result<(Seq<Seq<char>>, int), FsError>
    decreases comps.len() - i,
    when 0 <= i <= comps.len()
{
    if i >= comps.len() {
        Ok((out, cur))
    } else {
        let c = comps[i];
        if c == dot_name() {
            canon_from(t, comps, i + 1, out, cur)
        } else if !t.is_dir_at(cur) {
            Err(FsError::NotADirectory)
        } else if !t.entries_at(cur).contains_key(c) {
            Err(FsError::NotFound)
        } else if c == dotdot_name() {
            canon_from(t, comps, i + 1, pop_comp(out), t.entries_at(cur)[c])
        } else {
            canon_from(t, comps, i + 1, out.push(c), t.entries_at(cur)[c])
        }
    }
}

/// What canonicalizing an absolute path against the tree yields: the
/// canonical path string, or the failure met while walking.
pub open spec fn spec_canonicalize(t: FsTree, p: Seq<char>) -> Result<Seq<char>, FsError> {
    match canon_from(t, path_components(p), 0, Seq::empty(), 0) {
        Ok((out, cur)) => Ok(join_abs(out)),
        Err(e) => Err(e),
    }
}

/// Every component a split produces is nonempty and free of separators.
pub proof fn lemma_split_acc_valid(p: Seq<char>, cur: Seq<char>, acc: Seq<Seq<char>>)
    requires
        forall|j: int| 0 <= j < acc.len() ==> valid_name(#[trigger] acc[j]),
        forall|j: int| 0 <= j < cur.len() ==> cur[j] != '/',
    ensures
        forall|j: int|
            0 <= j < split_acc(p, cur, acc).len() ==> valid_name(#[trigger] split_acc(p, cur, acc)[j]),
    decreases p.len(),
{
    let r = split_acc(p, cur, acc);
    if p.len() == 0 {
        assert forall|j: int| 0 <= j < r.len() implies valid_name(#[trigger] r[j]) by {
            if cur.len() > 0 && j == acc.len() {
                assert(r[j] == cur);
                assert(valid_name(cur));
            } else {
                assert(r[j] == acc[j]);
            }
        }
    } else if p[0] == '/' {
        let acc1: Seq<Seq<char>> = if cur.len() > 0 {
            acc.push(cur)
        } else {
            acc
        };
        assert forall|j: int| 0 <= j < acc1.len() implies valid_name(#[trigger] acc1[j]) by {
            if cur.len() > 0 && j == acc.len() {
                assert(acc1[j] == cur);
                assert(valid_name(cur));
            } else {
                assert(acc1[j] == acc[j]);
            }
        }
        lemma_split_acc_valid(p.drop_first(), Seq::empty(), acc1);
        assert(r == split_acc(p.drop_first(), Seq::empty(), acc1));
        assert forall|j: int| 0 <= j < r.len() implies valid_name(#[trigger] r[j]) by {
            assert(r[j] == split_acc(p.drop_first(), Seq::empty(), acc1)[j]);
        }
    } else {
        assert forall|j: int|
            0 <= j < cur.push(p[0]).len() implies cur.push(p[0])[j] != '/' by {
            if j < cur.len() {
                assert(cur.push(p[0])[j] == cur[j]);
            } else {
                assert(cur.push(p[0])[j] == p[0]);
            }
        }
        lemma_split_acc_valid(p.drop_first(), cur.push(p[0]), acc);
        assert(r == split_acc(p.drop_first(), cur.push(p[0]), acc));
        assert forall|j: int| 0 <= j < r.len() implies valid_name(#[trigger] r[j]) by {
            assert(r[j] == split_acc(p.drop_first(), cur.push(p[0]), acc)[j]);
        }
    }
}

/// The components of a path are valid entry names.
pub proof fn lemma_components_valid(p: Seq<char>)
    ensures
        forall|j: int|
            0 <= j < path_components(p).len() ==> valid_name(#[trigger] path_components(p)[j]),
{
    lemma_split_acc_valid(p, Seq::empty(), Seq::empty());
}

/// Splitting a separator-free tail folds it into the current run.
proof fn lemma_split_acc_no_slash(c: Seq<char>, cur: Seq<char>, acc: Seq<Seq<char>>)
    requires
        forall|j: int| 0 <= j < c.len() ==> c[j] != '/',
    ensures
        split_acc(c, cur, acc) == (if cur.len() + c.len() > 0 {
            acc.push(cur + c)
        } else {
            acc
        }),
    decreases c.len(),
{
    if c.len() == 0 {
        assert(cur + c =~= cur);
    } else {
        lemma_split_acc_no_slash(c.drop_first(), cur.push(c[0]), acc);
        assert(cur.push(c[0]) + c.drop_first() =~= cur + c);
    }
}

/// Appending `/component` to any input appends that component to the split.
proof fn lemma_split_acc_append(p: Seq<char>, cur: Seq<char>, acc: Seq<Seq<char>>, c: Seq<char>)
    requires
        valid_name(c),
    ensures
        split_acc(p + seq!['/'] + c, cur, acc) == split_acc(p, cur, acc).push(c),
    decreases p.len(),
{
    let w = p + seq!['/'] + c;
    if p.len() == 0 {
        assert(w[0] == '/');
        assert(w.drop_first() =~= c);
        let acc1: Seq<Seq<char>> = if cur.len() > 0 {
            acc.push(cur)
        } else {
            acc
        };
        lemma_split_acc_no_slash(c, Seq::empty(), acc1);
        assert(Seq::<char>::empty() + c =~= c);
    } else {
        assert(w[0] == p[0]);
        assert(w.drop_first() =~= p.drop_first() + seq!['/'] + c);
        if p[0] == '/' {
            lemma_split_acc_append(
                p.drop_first(),
                Seq::empty(),
                if cur.len() > 0 {
                    acc.push(cur)
                } else {
                    acc
                },
                c,
            );
        } else {
            lemma_split_acc_append(p.drop_first(), cur.push(p[0]), acc, c);
        }
    }
}

/// Joining valid components and splitting again recovers them exactly.
pub proof fn lemma_components_of_join(comps: Seq<Seq<char>>)
    requires
        forall|j: int| 0 <= j < comps.len() ==> valid_name(#[trigger] comps[j]),
    ensures
        path_components(join_abs(comps)) == comps,
    decreases comps.len(),
{
    if comps.len() == 0 {
        assert(seq!['/'].drop_first() =~= Seq::<char>::empty());
        assert(split_acc(seq!['/'], Seq::empty(), Seq::empty()) == split_acc(
            Seq::<char>::empty(),
            Seq::empty(),
            Seq::empty(),
        ));
        assert(path_components(join_abs(comps)) =~= comps);
    } else {
        let pre = comps.drop_last();
        assert(forall|j: int| 0 <= j < pre.len() ==> valid_name(#[trigger] pre[j]));
        lemma_components_of_join(pre);
        lemma_split_acc_append(join_parts(pre), Seq::empty(), Seq::empty(), comps.last());
        assert(join_parts(comps) == join_parts(pre) + seq!['/'] + comps.last());
        assert(path_components(join_parts(comps)) == path_components(join_parts(pre)).push(
            comps.last(),
        ));
        if pre.len() == 0 {
            assert(join_parts(pre) == Seq::<char>::empty());
            assert(path_components(join_parts(pre)) =~= Seq::<Seq<char>>::empty());
        } else {
            assert(join_abs(pre) == join_parts(pre));
        }
        assert(path_components(join_parts(pre)) == pre);
        assert(pre.push(comps.last()) =~= comps);
    }
}

/// How resolution treats one appended component: it resolves the prefix,
/// then takes one lookup step.
pub proof fn lemma_resolve_snoc(t: FsTree, cur: int, comps: Seq<Seq<char>>, i: int, c: Seq<char>)
    requires
        0 <= i <= comps.len(),
    ensures
        resolve_from(t, cur, comps.push(c), i) == (match resolve_from(t, cur, comps, i) {
            Some(q) => {
                if t.is_dir_at(q) && t.entries_at(q).contains_key(c) {
                    Some(t.entries_at(q)[c])
                } else {
                    None
                }
            },
            None => None,
        }),
    decreases comps.len() - i,
{
    if i >= comps.len() {
        assert(comps.push(c)[i] == c);
        assert(resolve_from(t, cur, comps, i) == Some(cur));
        if t.is_dir_at(cur) && t.entries_at(cur).contains_key(c) {
            let nxt = t.entries_at(cur)[c];
            assert(resolve_from(t, cur, comps.push(c), i) == resolve_from(
                t,
                nxt,
                comps.push(c),
                i + 1,
            ));
            assert(resolve_from(t, nxt, comps.push(c), i + 1) == Some(nxt));
        } else {
            assert(resolve_from(t, cur, comps.push(c), i) is None);
        }
    } else {
        assert(comps.push(c)[i] == comps[i]);
        if t.is_dir_at(cur) && t.entries_at(cur).contains_key(comps[i]) {
            let nxt = t.entries_at(cur)[comps[i]];
            assert(resolve_from(t, cur, comps, i) == resolve_from(t, nxt, comps, i + 1));
            assert(resolve_from(t, cur, comps.push(c), i) == resolve_from(
                t,
                nxt,
                comps.push(c),
                i + 1,
            ));
            lemma_resolve_snoc(t, nxt, comps, i + 1, c);
        } else {
            assert(resolve_from(t, cur, comps, i) is None);
            assert(resolve_from(t, cur, comps.push(c), i) is None);
        }
    }
}

impl FsTree {
    /// Resolve an absolute path to a node index by walking its components
    /// through directory entries from the root. Returns `None` as soon as a
    /// component is missing or a non-directory is traversed into.
    pub fn lookup_path(&self, path: &str) -> (r: Option<FsIndex>)
        requires
            self.wf(),
            path@.len() > 0,
            path@[0] == '/',
        ensures
            match r {
                Some(i) => resolve_abs(*self, path@) == Some(i@) && self.live(i@),
                None => resolve_abs(*self, path@) is None,
            },
    {
        let comps = split_path(path);
        let ghost cv = path_components(path@);
        let mut cur: FsIndex = self.root();
        let mut i: usize = 0;
        proof {
            lemma_root(*self);
        }
        while i < comps.len()
            invariant
                self.wf(),
                i <= comps@.len(),
                comps@.map_values(|s: String| s@) == cv,
                cv == path_components(path@),
                self.live(cur@),
                resolve_abs(*self, path@) == resolve_from(*self, cur@, cv, i as int),
            decreases comps@.len() - i,
        {
            proof {
                assert(comps@[i as int]@ == cv[i as int]);
            }
            match self.get_entry(comps[i].as_str(), cur) {
                Err(_) => {
                    proof {
                        lemma_node_kind(*self, cur@);
                        assert(!self.is_dir_at(cur@));
                        assert(resolve_from(*self, cur@, cv, i as int) is None);
                    }
                    return None;
                },
                Ok(None) => {
                    proof {
                        assert(resolve_from(*self, cur@, cv, i as int) is None);
                    }
                    return None;
                },
                Ok(Some(next)) => {
                    proof {
                        lemma_entries_live(*self, cur@);
                        assert(self.live(next@));
                        assert(resolve_from(*self, cur@, cv, i as int) == resolve_from(
                            *self,
                            next@,
                            cv,
                            i as int + 1,
                        ));
                    }
                    cur = next;
                },
            }
            i = i + 1;
        }
        Some(cur)
    }
}

/// Split a path string into its non-empty components.
pub fn split_path(path: &str) -> (r: Vec<String>)
    ensures
        r@.map_values(|s: String| s@) == path_components(path@),
{
    let n = path.unicode_len();
    let mut out: Vec<String> = Vec::new();
    let mut start: usize = 0;
    let mut i: usize = 0;
    proof {
        assert(path@.skip(0) =~= path@);
        assert(path@.subrange(0, 0) =~= Seq::<char>::empty());
        assert(out@.map_values(|s: String| s@) =~= Seq::<Seq<char>>::empty());
    }
    while i < n
        invariant
            n == path@.len(),
            start <= i <= n,
            forall|j: int| start <= j < i ==> path@[j] != '/',
            split_acc(
                path@.skip(i as int),
                path@.subrange(start as int, i as int),
                out@.map_values(|s: String| s@),
            ) == path_components(path@),
        decreases n - i,
    {
        let c = path.get_char(i);
        proof {
            assert(path@.skip(i as int)[0] == path@[i as int]);
            assert(path@.skip(i as int).drop_first() =~= path@.skip(i as int + 1));
        }
        if c == '/' {
            if i > start {
                let comp = path.substring_char(start, i).to_owned();
                let ghost before = out@.map_values(|s: String| s@);
                out.push(comp);
                proof {
                    assert(out@.map_values(|s: String| s@) =~= before.push(
                        path@.subrange(start as int, i as int),
                    ));
                }
            }
            start = i + 1;
            proof {
                assert(path@.subrange(start as int, start as int) =~= Seq::<char>::empty());
            }
        } else {
            proof {
                assert(path@.subrange(start as int, i as int + 1) =~= path@.subrange(
                    start as int,
                    i as int,
                ).push(path@[i as int]));
            }
        }
        i = i + 1;
    }
    proof {
        assert(path@.skip(n as int) =~= Seq::<char>::empty());
    }
    if start < n {
        let comp = path.substring_char(start, n).to_owned();
        let ghost before = out@.map_values(|s: String| s@);
        out.push(comp);
        proof {
            assert(out@.map_values(|s: String| s@) =~= before.push(
                path@.subrange(start as int, n as int),
            ));
        }
    }
    out
}

/// Join components into an absolute path string: `/` alone when there are
/// none, else one leading `/` per component.
pub fn join_path(comps: &Vec<String>) -> (r: String)
    ensures
        r@ == join_abs(comps@.map_values(|s: String| s@)),
{
    let ghost cv = comps@.map_values(|s: String| s@);
    let mut out = String::new();
    if comps.len() == 0 {
        proof {
            reveal_strlit("/");
        }
        out.append("/");
        proof {
            assert(out@ =~= join_abs(cv));
        }
        return out;
    }
    let mut j: usize = 0;
    while j < comps.len()
        invariant
            j <= comps@.len(),
            cv == comps@.map_values(|s: String| s@),
            out@ == join_parts(cv.take(j as int)),
        decreases comps@.len() - j,
    {
        proof {
            reveal_strlit("/");
        }
        out.append("/");
        out.append(comps[j].as_str());
        proof {
            assert(cv.take(j as int + 1).drop_last() =~= cv.take(j as int));
            assert(cv.take(j as int + 1).last() == cv[j as int]);
            assert(out@ =~= join_parts(cv.take(j as int + 1)));
        }
        j = j + 1;
    }
    proof {
        assert(cv.take(cv.len() as int) =~= cv);
    }
    out
}

} // verus!
