//! The tree walker.
//!
//! The enumerator works on an in-memory tree — the binary mirrors the same
//! decisions over a real filesystem or a git tree snapshot, entry by entry.
//! It walks depth-first, prunes every directory whose name is in the ignored
//! set before descending, accepts the files whose extension key is in the
//! allow-list, and counts the entries it visited alongside.

use vstd::prelude::*;
use vstd::string::StrSliceExecFns;
use vstd::string::StringExecFns;

use crate::config::Settings;
use crate::config::name_in;
use crate::text::ext_key;

verus! {

/// A node of the tree: a file with its content, or a directory.
pub enum Tree {
    /// A regular file.
    File {
        /// The file's name, without any directory part.
        name: String,
        /// The file's bytes.
        content: Vec<u8>,
    },
    /// A directory and its entries.
    Dir {
        /// The directory's name.
        name: String,
        /// The entries, in the order the walk visits them.
        children: Vec<Tree>,
    },
}

/// The mathematical shape of a tree.
pub enum TreeModel {
    /// A regular file.
    File { name: Seq<char>, content: Seq<u8> },
    /// A directory and its entries.
    Dir { name: Seq<char>, children: Seq<TreeModel> },
}

/// The model of a tree value.
pub open spec fn tree_model(t: Tree) -> TreeModel
    decreases t,
{
    match t {
        Tree::File { name, content } => TreeModel::File { name: name@, content: content@ },
        Tree::Dir { name, children } => TreeModel::Dir {
            name: name@,
            children: tree_models(children@),
        },
    }
}

/// The models of a list of trees.
pub open spec fn tree_models(ts: Seq<Tree>) -> Seq<TreeModel>
    decreases ts,
{
    if ts.len() == 0 {
        Seq::empty()
    } else {
        seq![tree_model(ts[0])] + tree_models(ts.drop_first())
    }
}

proof fn lemma_tree_models_index(ts: Seq<Tree>, i: int)
    requires
        0 <= i < ts.len(),
    ensures
        tree_models(ts).len() == ts.len(),
        tree_models(ts)[i] == tree_model(ts[i]),
    decreases ts.len(),
{
    lemma_tree_models_len(ts);
    if i > 0 {
        lemma_tree_models_index(ts.drop_first(), i - 1);
    }
}

proof fn lemma_tree_models_len(ts: Seq<Tree>)
    ensures
        tree_models(ts).len() == ts.len(),
    decreases ts.len(),
{
    if ts.len() > 0 {
        lemma_tree_models_len(ts.drop_first());
    }
}

/// One accepted file as the walk yields it: its path and its content.
pub struct SourceFile {
    /// The file's path: the walk's prefix and the names on the way down,
    /// joined with `/`.
    pub path: String,
    /// The file's bytes.
    pub content: Vec<u8>,
}

/// The model of a yielded file list.
pub open spec fn sources_view(s: Seq<SourceFile>) -> Seq<(Seq<char>, Seq<u8>)> {
    s.map_values(|f: SourceFile| (f.path@, f.content@))
}

/// True when some entry of `list` is exactly `name`.
pub open spec fn chars_in(list: Seq<Seq<char>>, name: Seq<char>) -> bool {
    exists|i: int| 0 <= i < list.len() && list[i] == name
}

/// The character sequences of a list of strings.
pub open spec fn str_views(l: Seq<String>) -> Seq<Seq<char>> {
    l.map_values(|s: String| s@)
}

/// A path below `prefix`: the prefix, a separator and the name — or the bare
/// name at the top.
pub open spec fn joined(prefix: Seq<char>, name: Seq<char>) -> Seq<char> {
    if prefix.len() == 0 {
        name
    } else {
        prefix + seq!['/'] + name
    }
}

/// True when the node is a directory whose name is in the ignored set.
pub open spec fn is_ignored_dir(t: TreeModel, ignore: Seq<Seq<char>>) -> bool {
    match t {
        TreeModel::Dir { name, .. } => chars_in(ignore, name),
        TreeModel::File { .. } => false,
    }
}

/// The accepted files of a walk of `t`: paths and contents, in visit order.
/// A directory with an ignored name is pruned whole; a file is accepted when
/// its extension key is in the allow-list.
pub open spec fn walk_accepted(
    t: TreeModel,
    ignore: Seq<Seq<char>>,
    exts: Seq<Seq<char>>,
    prefix: Seq<char>,
) -> Seq<(Seq<char>, Seq<u8>)>
    decreases t,
{
    match t {
        TreeModel::File { name, content } => {
            if chars_in(exts, ext_key(name)) {
                seq![(joined(prefix, name), content)]
            } else {
                Seq::empty()
            }
        },
        TreeModel::Dir { name, children } => {
            if chars_in(ignore, name) {
                Seq::empty()
            } else {
                walk_list_accepted(children, ignore, exts, joined(prefix, name))
            }
        },
    }
}

/// The accepted files of walking a list of siblings, in order.
pub open spec fn walk_list_accepted(
    ts: Seq<TreeModel>,
    ignore: Seq<Seq<char>>,
    exts: Seq<Seq<char>>,
    prefix: Seq<char>,
) -> Seq<(Seq<char>, Seq<u8>)>
    decreases ts,
{
    if ts.len() == 0 {
        Seq::empty()
    } else {
        walk_accepted(ts[0], ignore, exts, prefix) + walk_list_accepted(
            ts.drop_first(),
            ignore,
            exts,
            prefix,
        )
    }
}

/// How many entries a walk of `t` visits: every file and directory that is
/// not inside a pruned subtree.
pub open spec fn walk_visited(t: TreeModel, ignore: Seq<Seq<char>>) -> nat
    decreases t,
{
    match t {
        TreeModel::File { .. } => 1,
        TreeModel::Dir { name, children } => {
            if chars_in(ignore, name) {
                0
            } else {
                1 + walk_list_visited(children, ignore)
            }
        },
    }
}

/// How many entries a walk of a list of siblings visits.
pub open spec fn walk_list_visited(ts: Seq<TreeModel>, ignore: Seq<Seq<char>>) -> nat
    decreases ts,
{
    if ts.len() == 0 {
        0
    } else {
        walk_visited(ts[0], ignore) + walk_list_visited(ts.drop_first(), ignore)
    }
}

proof fn lemma_walk_list_push(
    ts: Seq<TreeModel>,
    t: TreeModel,
    ignore: Seq<Seq<char>>,
    exts: Seq<Seq<char>>,
    prefix: Seq<char>,
)
    ensures
        walk_list_accepted(ts.push(t), ignore, exts, prefix) == walk_list_accepted(
            ts,
            ignore,
            exts,
            prefix,
        ) + walk_accepted(t, ignore, exts, prefix),
        walk_list_visited(ts.push(t), ignore) == walk_list_visited(ts, ignore) + walk_visited(
            t,
            ignore,
        ),
    decreases ts.len(),
{
    if ts.len() == 0 {
        let e: Seq<(Seq<char>, Seq<u8>)> = Seq::empty();
        assert(ts.push(t).len() == 1);
        assert(ts.push(t)[0] == t);
        assert(ts.push(t).drop_first() =~= Seq::<TreeModel>::empty());
        assert(walk_list_accepted(ts.push(t).drop_first(), ignore, exts, prefix) == e);
        assert(walk_list_visited(ts.push(t).drop_first(), ignore) == 0);
        assert(walk_list_accepted(ts, ignore, exts, prefix) == e);
        assert(walk_list_visited(ts, ignore) == 0);
        assert(walk_accepted(t, ignore, exts, prefix) + e =~= walk_accepted(t, ignore, exts, prefix));
        assert(e + walk_accepted(t, ignore, exts, prefix) =~= walk_accepted(
            t,
            ignore,
            exts,
            prefix,
        ));
    } else {
        assert(ts.push(t)[0] == ts[0]);
        assert(ts.push(t).drop_first() =~= ts.drop_first().push(t));
        lemma_walk_list_push(ts.drop_first(), t, ignore, exts, prefix);
        assert(walk_accepted(ts[0], ignore, exts, prefix) + (walk_list_accepted(
            ts.drop_first(),
            ignore,
            exts,
            prefix,
        ) + walk_accepted(t, ignore, exts, prefix)) =~= (walk_accepted(ts[0], ignore, exts, prefix)
            + walk_list_accepted(ts.drop_first(), ignore, exts, prefix)) + walk_accepted(
            t,
            ignore,
            exts,
            prefix,
        ));
    }
}

proof fn lemma_name_in_views(list: Seq<String>, name: Seq<char>)
    ensures
        name_in(list, name) == chars_in(str_views(list), name),
{
    if name_in(list, name) {
        let i = choose|i: int| 0 <= i < list.len() && list[i]@ == name;
        assert(str_views(list)[i] == name);
    }
    if chars_in(str_views(list), name) {
        let i = choose|i: int| 0 <= i < str_views(list).len() && str_views(list)[i] == name;
        assert(list[i]@ == name);
    }
}

/// Copies a byte vector.
fn copy_bytes(v: &Vec<u8>) -> (r: Vec<u8>)
    ensures
        r@ == v@,
{
    let mut r: Vec<u8> = Vec::new();
    let mut i: usize = 0;
    while i < v.len()
        invariant
            i <= v@.len(),
            r@ == v@.take(i as int),
        decreases v@.len() - i,
    {
        r.push(v[i]);
        proof {
            assert(v@.take(i + 1) =~= v@.take(i as int).push(v@[i as int]));
        }
        i = i + 1;
    }
    proof {
        assert(v@.take(i as int) =~= v@);
    }
    r
}

/// Joins a path prefix and a name with a separator; a name below the empty
/// prefix stands alone.
fn join_path(prefix: &str, name: &str) -> (r: String)
    ensures
        r@ == joined(prefix@, name@),
{
    proof {
        reveal_strlit("/");
    }
    if prefix.unicode_len() == 0 {
        name.to_owned()
    } else {
        let mut r = prefix.to_owned();
        r.append("/");
        r.append(name);
        proof {
            assert("/"@ =~= seq!['/']);
        }
        r
    }
}

/// Walks `t` depth-first below `prefix`: prunes ignored directories before
/// descending, appends each accepted file's path and content to `out`, and
/// counts every visited entry onto `visited`.
pub fn enumerate(t: &Tree, settings: &Settings, prefix: &str, out: &mut Vec<SourceFile>, visited: &mut u64)
    requires
        *old(visited) + walk_visited(tree_model(*t), str_views(settings.ignore_dirs@)) <= u64::MAX,
    ensures
        sources_view(final (out)@) == sources_view(old(out)@) + walk_accepted(
            tree_model(*t),
            str_views(settings.ignore_dirs@),
            str_views(settings.extensions@),
            prefix@,
        ),
        *final (visited) == *old(visited) + walk_visited(
            tree_model(*t),
            str_views(settings.ignore_dirs@),
        ),
    decreases *t,
{
    let ghost ign = str_views(settings.ignore_dirs@);
    let ghost exts = str_views(settings.extensions@);
    match t {
        Tree::File { name, content } => {
            *visited = *visited + 1;
            let accepted = settings.accepts_file(name.as_str());
            proof {
                lemma_name_in_views(settings.extensions@, ext_key(name@));
            }
            if accepted.is_some() {
                let path = join_path(prefix, name.as_str());
                let bytes = copy_bytes(content);
                out.push(SourceFile { path, content: bytes });
                proof {
                    assert(sources_view(out@) =~= sources_view(out@.drop_last()).push(
                        (out@.last().path@, out@.last().content@),
                    ));
                    assert(sources_view(old(out)@) + walk_accepted(tree_model(*t), ign, exts, prefix@)
                        =~= sources_view(old(out)@).push((joined(prefix@, name@), content@)));
                }
            } else {
                proof {
                    assert(sources_view(out@) =~= sources_view(out@) + Seq::<(
                        Seq<char>,
                        Seq<u8>,
                    )>::empty());
                }
            }
        },
        Tree::Dir { name, children } => {
            let ghost cm = tree_models(children@);
            proof {
                lemma_tree_models_len(children@);
                lemma_name_in_views(settings.ignore_dirs@, name@);
                assert(tree_model(*t) == TreeModel::Dir { name: name@, children: cm });
            }
            if settings.accepts_directory(name.as_str()) {
                *visited = *visited + 1;
                let path = join_path(prefix, name.as_str());
                let ghost out0 = out@;
                let ghost v0 = *visited;
                let mut ci: usize = 0;
                proof {
                    assert(cm.take(0) =~= Seq::<TreeModel>::empty());
                    assert(walk_visited(tree_model(*t), ign) == 1 + walk_list_visited(cm, ign));
                }
                #[verifier::loop_isolation(false)]
                while ci < children.len()
                    invariant
                        ci <= children@.len(),
                        cm == tree_models(children@),
                        cm.len() == children@.len(),
                        v0 + walk_list_visited(cm, ign) <= u64::MAX,
                        path@ == joined(prefix@, name@),
                        sources_view(out@) == sources_view(out0) + walk_list_accepted(
                            cm.take(ci as int),
                            ign,
                            exts,
                            path@,
                        ),
                        *visited == v0 + walk_list_visited(cm.take(ci as int), ign),
                    decreases children@.len() - ci,
                {
                    proof {
                        lemma_tree_models_index(children@, ci as int);
                        lemma_walk_list_prefix_visited(cm, ign, ci + 1);
                        assert(cm.take(ci + 1) =~= cm.take(ci as int).push(cm[ci as int]));
                        lemma_walk_list_push(cm.take(ci as int), cm[ci as int], ign, exts, path@);
                        lemma_walk_list_push_visited(cm.take(ci as int), cm[ci as int], ign);
                        assert(*t is Dir);
                        assert(*children == (*t)->Dir_children);
                        assert(decreases_to!(*t => (*t)->Dir_children));
                        vstd::std_specs::vec::axiom_vec_index_decreases(
                            (*t)->Dir_children,
                            ci as int,
                        );
                        assert(decreases_to!(*t => children@[ci as int]));
                    }
                    enumerate(&children[ci], settings, path.as_str(), out, visited);
                    ci = ci + 1;
                }
                proof {
                    assert(cm.take(ci as int) =~= cm);
                }
            } else {
                proof {
                    assert(sources_view(out@) =~= sources_view(out@) + Seq::<(
                        Seq<char>,
                        Seq<u8>,
                    )>::empty());
                }
            }
        },
    }
}

/// `t` with every directory whose name is in the ignored set removed, at
/// any depth below the root.
pub open spec fn prune(t: TreeModel, ignore: Seq<Seq<char>>) -> TreeModel
    decreases t,
{
    match t {
        TreeModel::File { .. } => t,
        TreeModel::Dir { name, children } => TreeModel::Dir {
            name,
            children: prune_list(children, ignore),
        },
    }
}

/// A list of siblings with the ignored directories removed and the rest
/// pruned.
pub open spec fn prune_list(ts: Seq<TreeModel>, ignore: Seq<Seq<char>>) -> Seq<TreeModel>
    decreases ts,
{
    if ts.len() == 0 {
        Seq::empty()
    } else if is_ignored_dir(ts[0], ignore) {
        prune_list(ts.drop_first(), ignore)
    } else {
        seq![prune(ts[0], ignore)] + prune_list(ts.drop_first(), ignore)
    }
}

/// An ignored directory is never entered: walking a tree whose root is not
/// itself ignored yields exactly the files — and counts exactly the
/// entries — of the tree with every ignored-directory subtree removed. No
/// file beneath an ignored directory ever appears in the results.
pub proof fn lemma_ignored_dirs_never_entered(
    t: TreeModel,
    ignore: Seq<Seq<char>>,
    exts: Seq<Seq<char>>,
    prefix: Seq<char>,
)
    requires
        !is_ignored_dir(t, ignore),
    ensures
        walk_accepted(t, ignore, exts, prefix) == walk_accepted(
            prune(t, ignore),
            Seq::empty(),
            exts,
            prefix,
        ),
        walk_visited(t, ignore) == walk_visited(prune(t, ignore), Seq::empty()),
    decreases t,
{
    match t {
        TreeModel::File { .. } => {
        },
        TreeModel::Dir { name, children } => {
            lemma_ignored_dirs_never_entered_list(children, ignore, exts, joined(prefix, name));
        },
    }
}

proof fn lemma_ignored_dirs_never_entered_list(
    ts: Seq<TreeModel>,
    ignore: Seq<Seq<char>>,
    exts: Seq<Seq<char>>,
    prefix: Seq<char>,
)
    ensures
        walk_list_accepted(ts, ignore, exts, prefix) == walk_list_accepted(
            prune_list(ts, ignore),
            Seq::empty(),
            exts,
            prefix,
        ),
        walk_list_visited(ts, ignore) == walk_list_visited(prune_list(ts, ignore), Seq::empty()),
    decreases ts,
{
    if ts.len() > 0 {
        lemma_ignored_dirs_never_entered_list(ts.drop_first(), ignore, exts, prefix);
        if is_ignored_dir(ts[0], ignore) {
            assert(walk_accepted(ts[0], ignore, exts, prefix) =~= Seq::<(Seq<char>, Seq<u8>)>::empty());
            assert(walk_accepted(ts[0], ignore, exts, prefix) + walk_list_accepted(
                ts.drop_first(),
                ignore,
                exts,
                prefix,
            ) =~= walk_list_accepted(ts.drop_first(), ignore, exts, prefix));
            assert(walk_visited(ts[0], ignore) == 0);
        } else {
            lemma_ignored_dirs_never_entered(ts[0], ignore, exts, prefix);
            let pruned = prune_list(ts, ignore);
            assert(pruned == seq![prune(ts[0], ignore)] + prune_list(ts.drop_first(), ignore));
            assert(pruned.len() >= 1);
            assert(pruned[0] == prune(ts[0], ignore));
            assert(pruned.drop_first() =~= prune_list(ts.drop_first(), ignore));
            assert(!is_ignored_dir(pruned[0], Seq::empty()));
        }
    } else {
        assert(prune_list(ts, ignore) =~= Seq::<TreeModel>::empty());
    }
}

proof fn lemma_walk_list_push_visited(ts: Seq<TreeModel>, t: TreeModel, ignore: Seq<Seq<char>>)
    ensures
        walk_list_visited(ts.push(t), ignore) == walk_list_visited(ts, ignore) + walk_visited(
            t,
            ignore,
        ),
    decreases ts.len(),
{
    if ts.len() == 0 {
        assert(ts.push(t).len() == 1);
        assert(ts.push(t)[0] == t);
        assert(ts.push(t).drop_first() =~= Seq::<TreeModel>::empty());
        assert(walk_list_visited(ts.push(t).drop_first(), ignore) == 0);
        assert(walk_list_visited(ts, ignore) == 0);
    } else {
        assert(ts.push(t)[0] == ts[0]);
        assert(ts.push(t).drop_first() =~= ts.drop_first().push(t));
        lemma_walk_list_push_visited(ts.drop_first(), t, ignore);
    }
}

proof fn lemma_walk_list_prefix_visited(ts: Seq<TreeModel>, ignore: Seq<Seq<char>>, i: int)
    requires
        0 <= i <= ts.len(),
    ensures
        walk_list_visited(ts.take(i), ignore) <= walk_list_visited(ts, ignore),
    decreases ts.len() - i,
{
    if i == ts.len() {
        assert(ts.take(i) =~= ts);
    } else {
        lemma_walk_list_prefix_visited(ts, ignore, i + 1);
        assert(ts.take(i + 1) =~= ts.take(i).push(ts[i]));
        lemma_walk_list_push_visited(ts.take(i), ts[i], ignore);
    }
}

} // verus!
