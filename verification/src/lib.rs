//! An in-memory, simulated hierarchical filesystem: an arena-indexed tree of
//! directories and files, with creation, deletion (single and recursive),
//! moving/renaming, absolute-path lookup, path canonicalization against the
//! live tree, and file content access.
//!
//! The shell around it (command dispatch, rendering, the per-file execution
//! hook) is a thin consumer and lives outside this library.
use vstd::prelude::*;
use vstd::string::*;

pub mod entry_map;
pub mod fs;
pub mod paths;

use crate::fs::{
    dot_name, dotdot_name, is_dot_name, lemma_entries_live, lemma_node_kind, lemma_parent_of_edge,
    lemma_root, str_eq, valid_name, FsError, FsIndex, FsTree,
};
use crate::paths::{
    canon_from, join_path, lemma_components_of_join, lemma_components_valid, lemma_resolve_snoc,
    path_components, pop_comp, resolve_abs, resolve_from, spec_canonicalize, split_path,
};

verus! {

/// The home directory's absolute path, abbreviated to `~` in prompts.
pub const HOME: &'static str = "/home/user";

/// Exit status of an executed command: zero means success.
#[derive(Clone, Copy, Debug, PartialEq, Eq, Structural)]
pub struct StatusCode(pub u32);

impl StatusCode {
    pub fn is_success(&self) -> (r: bool)
        ensures
            r == (self.0 == 0),
    {
        self.0 == 0
    }

    pub fn is_failure(&self) -> (r: bool)
        ensures
            r == (self.0 != 0),
    {
        !self.is_success()
    }
}

/// Canonicalize an absolute path against the live tree: empty components
/// and `.` are skipped, each real component is pushed after checking that it
/// exists under the tracked directory, and `..` pops the last output
/// component while following the tree's own `..` entry. The result is the
/// canonical absolute path, which resolves in this tree to the node the
/// walk ended on.
pub fn canonicalize(path: &str, fs_tree: &FsTree) -> (r: Result<String, FsError>)
    requires
        fs_tree.wf(),
        path@.len() > 0,
        path@[0] == '/',
    ensures
        match r {
            Ok(s) => {
                &&& spec_canonicalize(*fs_tree, path@) == Ok::<Seq<char>, FsError>(s@)
                &&& canon_from(*fs_tree, path_components(path@), 0, Seq::empty(), 0) matches Ok(oc)
                    && resolve_abs(*fs_tree, s@) == Some(oc.1) && fs_tree.live(oc.1)
            },
            Err(e) => spec_canonicalize(*fs_tree, path@) == Err::<Seq<char>, FsError>(e),
        },
{
    let comps = split_path(path);
    let ghost cv = path_components(path@);
    proof {
        lemma_components_valid(path@);
        lemma_root(*fs_tree);
    }
    let mut out_comps: Vec<String> = Vec::new();
    let mut cur: FsIndex = fs_tree.root();
    let mut i: usize = 0;
    proof {
        assert(out_comps@.map_values(|s: String| s@) =~= Seq::<Seq<char>>::empty());
    }
    while i < comps.len()
        invariant
            fs_tree.wf(),
            i <= comps@.len(),
            comps@.map_values(|s: String| s@) == cv,
            cv == path_components(path@),
            forall|j: int| 0 <= j < cv.len() ==> valid_name(#[trigger] cv[j]),
            forall|j: int|
                0 <= j < out_comps@.len() ==> valid_name((#[trigger] out_comps@[j])@)
                    && !is_dot_name(out_comps@[j]@),
            fs_tree.live(cur@),
            canon_from(
                *fs_tree,
                cv,
                i as int,
                out_comps@.map_values(|s: String| s@),
                cur@,
            ) == canon_from(*fs_tree, cv, 0, Seq::empty(), 0),
            resolve_from(*fs_tree, 0, out_comps@.map_values(|s: String| s@), 0) == Some(cur@),
        decreases comps@.len() - i,
    {
        let ghost ov = out_comps@.map_values(|s: String| s@);
        proof {
            assert(comps@[i as int]@ == cv[i as int]);
        }
        let cs = comps[i].as_str();
        let dot1 = ".";
        let dot2 = "..";
        proof {
            reveal_strlit(".");
            reveal_strlit("..");
            assert(dot1@ =~= dot_name());
            assert(dot2@ =~= dotdot_name());
        }
        if str_eq(cs, dot1) {
            proof {
                assert(cv[i as int] == dot_name());
            }
        } else {
            match fs_tree.get_entry(cs, cur) {
                Err(_) => {
                    proof {
                        lemma_node_kind(*fs_tree, cur@);
                        assert(!fs_tree.is_dir_at(cur@));
                        assert(canon_from(*fs_tree, cv, i as int, ov, cur@) == Err::<
                            (Seq<Seq<char>>, int),
                            FsError,
                        >(FsError::NotADirectory));
                    }
                    return Err(FsError::NotADirectory);
                },
                Ok(None) => {
                    proof {
                        assert(canon_from(*fs_tree, cv, i as int, ov, cur@) == Err::<
                            (Seq<Seq<char>>, int),
                            FsError,
                        >(FsError::NotFound));
                    }
                    return Err(FsError::NotFound);
                },
                Ok(Some(nxt)) => {
                    proof {
                        lemma_entries_live(*fs_tree, cur@);
                    }
                    if str_eq(cs, dot2) {
                        let _ = out_comps.pop();
                        proof {
                            assert(cv[i as int] == dotdot_name());
                            assert(out_comps@.map_values(|s: String| s@) =~= pop_comp(ov));
                            if ov.len() == 0 {
                                assert(resolve_from(*fs_tree, 0, ov, 0) == Some(0int));
                                assert(cur@ == 0);
                                lemma_root(*fs_tree);
                                assert(nxt@ == 0);
                            } else {
                                assert(ov.drop_last().push(ov.last()) =~= ov);
                                lemma_resolve_snoc(*fs_tree, 0, ov.drop_last(), 0, ov.last());
                                let rdl = resolve_from(*fs_tree, 0, ov.drop_last(), 0);
                                assert(rdl is Some);
                                let q = rdl->0;
                                assert(fs_tree.is_dir_at(q) && fs_tree.entries_at(
                                    q,
                                ).contains_key(ov.last()) && fs_tree.entries_at(q)[ov.last()]
                                    == cur@);
                                assert(!is_dot_name(ov.last()));
                                assert(fs_tree.edge(q, ov.last(), cur@));
                                lemma_parent_of_edge(*fs_tree, q, ov.last(), cur@);
                                assert(nxt@ == q);
                            }
                            assert(resolve_from(*fs_tree, 0, pop_comp(ov), 0) == Some(nxt@));
                        }
                        cur = nxt;
                    } else {
                        proof {
                            assert(cv[i as int] != dot_name() && cv[i as int] != dotdot_name());
                        }
                        let ghost before = out_comps@.map_values(|s: String| s@);
                        out_comps.push(comps[i].clone());
                        proof {
                            assert(out_comps@.map_values(|s: String| s@) =~= before.push(
                                cv[i as int],
                            ));
                            lemma_resolve_snoc(*fs_tree, 0, ov, 0, cv[i as int]);
                            assert(resolve_from(*fs_tree, 0, ov.push(cv[i as int]), 0) == Some(
                                nxt@,
                            ));
                        }
                        cur = nxt;
                    }
                },
            }
        }
        i = i + 1;
    }
    proof {
        let ov = out_comps@.map_values(|s: String| s@);
        assert(canon_from(*fs_tree, cv, cv.len() as int, ov, cur@) == Ok::<
            (Seq<Seq<char>>, int),
            FsError,
        >((ov, cur@)));
        lemma_components_of_join(ov);
    }
    let s = join_path(&out_comps);
    Ok(s)
}

/// The ten characters of the home directory's absolute path.
pub open spec fn home_seq() -> Seq<char> {
    seq!['/', 'h', 'o', 'm', 'e', '/', 'u', 's', 'e', 'r']
}

/// What `display_path` returns: the home prefix abbreviated to `~`.
pub open spec fn spec_display_path(p: Seq<char>) -> Seq<char> {
    if p.len() >= 10 && p.subrange(0, 10) == home_seq() {
        seq!['~'] + p.skip(10)
    } else {
        p
    }
}

/// Render a path for the prompt, abbreviating a leading `/home/user` to `~`.
pub fn display_path(path: &str) -> (r: String)
    ensures
        r@ == spec_display_path(path@),
{
    let n = path.unicode_len();
    let home = "/home/user";
    proof {
        reveal_strlit("/home/user");
        assert(home@ =~= home_seq());
    }
    if n < 10 {
        return path.to_owned();
    }
    let mut i: usize = 0;
    while i < 10
        invariant
            n == path@.len(),
            10 <= n,
            i <= 10,
            home@ == home_seq(),
            forall|k: int| 0 <= k < i ==> path@[k] == home_seq()[k],
        decreases 10 - i,
    {
        if path.get_char(i) != home.get_char(i) {
            proof {
                assert(path@.subrange(0, 10)[i as int] != home_seq()[i as int]);
            }
            return path.to_owned();
        }
        i = i + 1;
    }
    proof {
        assert(path@.subrange(0, 10) =~= home_seq());
    }
    let mut out = String::new();
    let tilde = "~";
    proof {
        reveal_strlit("~");
    }
    out.append(tilde);
    out.append(path.substring_char(10, n));
    proof {
        assert(out@ =~= seq!['~'] + path@.skip(10));
    }
    out
}

/// A fresh session's filesystem: the seeded default tree.
pub fn init_fs() -> (t: FsTree)
    ensures
        crate::fs::default_tree_shape(t),
{
    FsTree::default()
}

/// Tab completion for the input line. For now it only tags the input.
pub fn tab_complete(input: &str) -> (r: String)
    ensures
        r@ == input@ + ", tab completed!"@,
{
    let mut out = input.to_owned();
    out.append(", tab completed!");
    out
}

} // verus!
