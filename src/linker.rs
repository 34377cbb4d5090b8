//! Linking: the functions reachable from the root module, each emitted once
//! under a unique name, with every call target rewritten to emitted names.
use vstd::prelude::*;
use vstd::set_lib::{lemma_int_range, lemma_len_subset, set_int_range};
use crate::ast::{Ast, Spanned};
use crate::module::{exports_of, find_export, module_at, path_view, Module, ModuleUsePath};
use crate::typecheck::{globals, resolve_import};
use crate::names::{entry_name, mangle_name, mangled};
use crate::rename::{
    block_renamed, copy_params, names_of_params, param_names, params_same, table_view, Table,
};

verus! {

/// The paths of a list of item paths.
pub open spec fn paths_view(s: Seq<ModuleUsePath>) -> Seq<Seq<Seq<char>>> {
    s.map_values(|p: ModuleUsePath| path_view(p@))
}

/// The index of the first occurrence of `x` in `s`.
pub open spec fn index_of<A>(s: Seq<A>, x: A) -> Option<int>
    decreases s.len(),
{
    if s.len() == 0 {
        None
    } else {
        match index_of(s.drop_last(), x) {
            Some(i) => Some(i),
            None => if s.last() == x {
                Some(s.len() - 1)
            } else {
                None
            },
        }
    }
}

/// The index of the first function named `n` among `items`.
pub open spec fn find_func(items: Seq<Spanned<Ast>>, n: Seq<char>) -> Option<int>
    decreases items.len(),
{
    if items.len() == 0 {
        None
    } else {
        match find_func(items.drop_last(), n) {
            Some(i) => Some(i),
            None => match items.last().data {
                Ast::Func(name, _, _, _) => if name.data@ == n {
                    Some(items.len() - 1)
                } else {
                    None
                },
                _ => None,
            },
        }
    }
}

/// Whether `a` is a function named `n`.
pub open spec fn is_func_named(a: Spanned<Ast>, n: Seq<char>) -> bool {
    match a.data {
        Ast::Func(name, _, _, _) => name.data@ == n,
        _ => false,
    }
}

/// The module and index of the function that the item path `p` names.
pub open spec fn item_at(g: Module, p: Seq<Seq<char>>) -> Option<(Module, int)> {
    if p.len() == 0 {
        None
    } else {
        match module_at(g, p.drop_last()) {
            None => None,
            Some(m) => match find_func(m.items@, p.last()) {
                None => None,
                Some(i) => Some((m, i)),
            },
        }
    }
}

/// The indices, among the first `n` needed items, of those that name a
/// function: these are emitted, in this order.
pub open spec fn emitted(g: Module, needed: Seq<Seq<Seq<char>>>, n: int) -> Seq<int>
    decreases n,
{
    if n <= 0 || n > needed.len() {
        Seq::empty()
    } else if item_at(g, needed[n - 1]) is Some {
        emitted(g, needed, n - 1).push(n - 1)
    } else {
        emitted(g, needed, n - 1)
    }
}

/// The renaming table of module `m`: each of its functions and imports
/// whose path is needed, under its local name, becomes its emitted name.
pub open spec fn scope_table(m: Module, needed: Seq<Seq<Seq<char>>>, n: int) -> Table
    decreases n,
{
    if n <= 0 || n > m.items@.len() {
        Seq::empty()
    } else {
        let prev = scope_table(m, needed, n - 1);
        match m.items@[n - 1].data {
            Ast::Func(name, _, _, _) => {
                let p = path_view(m.path@).push(name.data@);
                match index_of(needed, p) {
                    Some(id) => prev.push((name.data@, mangled(id as nat, p))),
                    None => prev,
                }
            },
            Ast::Import(path) => {
                let p = path_view(path.data@);
                match index_of(needed, p) {
                    Some(id) => if p.len() > 0 {
                        prev.push((p.last(), mangled(id as nat, p)))
                    } else {
                        prev
                    },
                    None => prev,
                }
            },
            Ast::Mod(_) => prev,
        }
    }
}

/// `r` is the function that needed item `i` names, emitted under its
/// mangled name, with its body renamed by the table of its module.
pub open spec fn linked_item(g: Module, needed: Seq<Seq<Seq<char>>>, i: int, r: Spanned<Ast>) -> bool {
    match item_at(g, needed[i]) {
        None => false,
        Some((m, j)) => match m.items@[j].data {
            Ast::Func(name, ret, params, body) => match r.data {
                Ast::Func(n2, ret2, params2, body2) => {
                    &&& r.span == m.items@[j].span
                    &&& n2.span == name.span
                    &&& n2.data@ == mangled(i as nat, needed[i])
                    &&& ret2 == ret
                    &&& params_same(params@, params2@)
                    &&& block_renamed(scope_table(m, needed, m.items@.len() as int), param_names(params@), body, body2)
                },
                _ => false,
            },
            _ => false,
        },
    }
}

/// The name of an emitted function.
pub open spec fn func_name(a: Spanned<Ast>) -> Seq<char> {
    match a.data {
        Ast::Func(n, _, _, _) => n.data@,
        _ => Seq::empty(),
    }
}

/// Some emitted function is named `x`.
pub open spec fn is_emitted_name(out: Seq<Spanned<Ast>>, x: Seq<char>) -> bool {
    exists|k: int| 0 <= k < out.len() && func_name(out[k]) == x
}

/// No two emitted functions share a name.
pub open spec fn names_distinct(out: Seq<Spanned<Ast>>) -> bool {
    forall|a: int, b: int| 0 <= a < b < out.len() ==> func_name(out[a]) != func_name(out[b])
}

/// The path of item `j` of `m` if it is a function.
pub open spec fn func_path(m: Module, j: int) -> Option<Seq<Seq<char>>> {
    match m.items@[j].data {
        Ast::Func(name, _, _, _) => Some(path_view(m.path@).push(name.data@)),
        _ => None,
    }
}

/// The paths of the functions among the first `upto` items of `m` are in `s`.
pub open spec fn funcs_registered(m: Module, s: Seq<Seq<Seq<char>>>, upto: int) -> bool {
    forall|j: int| 0 <= j < upto ==> (#[trigger] func_path(m, j) matches Some(p) ==> s.contains(p))
}

/// A copy of a path.
fn copy_path(p: &Vec<String>) -> (r: Vec<String>)
    ensures
        path_view(r@) == path_view(p@),
{
    let mut out: Vec<String> = Vec::new();
    let mut i: usize = 0;
    while i < p.len()
        invariant
            i <= p@.len(),
            out@.len() == i,
            path_view(out@) == path_view(p@.subrange(0, i as int)),
        decreases p@.len() - i,
    {
        let ghost prev = out@;
        let c = p[i].clone();
        out.push(c);
        assert forall|j: int| 0 <= j < i + 1 implies out@[j]@ == p@[j]@ by {
            if j < i {
                assert(path_view(prev)[j] == path_view(p@.subrange(0, i as int))[j]);
            }
        }
        assert(path_view(out@) =~= path_view(p@.subrange(0, i + 1)));
        i = i + 1;
    }
    assert(p@.subrange(0, i as int) =~= p@);
    out
}

/// Whether two paths hold the same names.
fn same_path(a: &Vec<String>, b: &Vec<String>) -> (r: bool)
    ensures
        r == (path_view(a@) == path_view(b@)),
{
    if a.len() != b.len() {
        proof {
            if path_view(a@) == path_view(b@) {
                assert(path_view(a@).len() == path_view(b@).len());
            }
        }
        return false;
    }
    let mut i: usize = 0;
    while i < a.len()
        invariant
            i <= a@.len() == b@.len(),
            forall|j: int| 0 <= j < i ==> a@[j]@ == b@[j]@,
        decreases a@.len() - i,
    {
        if a[i] != b[i] {
            proof {
                if path_view(a@) == path_view(b@) {
                    assert(path_view(a@)[i as int] == path_view(b@)[i as int]);
                }
            }
            return false;
        }
        i = i + 1;
    }
    assert(path_view(a@) =~= path_view(b@));
    true
}

/// The index of the first entry of `needed` equal to `p`.
fn position(needed: &Vec<ModuleUsePath>, p: &Vec<String>) -> (r: Option<usize>)
    ensures
        match r {
            Some(i) => index_of(paths_view(needed@), path_view(p@)) == Some(i as int),
            None => index_of(paths_view(needed@), path_view(p@)) is None,
        },
{
    let ghost s = paths_view(needed@);
    let mut i: usize = 0;
    while i < needed.len()
        invariant
            i <= needed@.len(),
            s == paths_view(needed@),
            index_of(s.subrange(0, i as int), path_view(p@)) is None,
        decreases needed@.len() - i,
    {
        assert(s.subrange(0, i + 1).drop_last() =~= s.subrange(0, i as int));
        if same_path(&needed[i], p) {
            proof {
                lemma_index_of_prefix(s, path_view(p@), i + 1);
            }
            return Some(i);
        }
        i = i + 1;
    }
    assert(s.subrange(0, i as int) =~= s);
    None
}

/// The first occurrence in a prefix is the first occurrence in the whole.
proof fn lemma_index_of_prefix<A>(s: Seq<A>, x: A, n: int)
    requires
        0 < n <= s.len(),
        index_of(s.subrange(0, n), x) is Some,
    ensures
        index_of(s, x) == index_of(s.subrange(0, n), x),
    decreases s.len() - n,
{
    if n < s.len() {
        assert(s.subrange(0, n + 1).drop_last() =~= s.subrange(0, n));
        lemma_index_of_prefix(s, x, n + 1);
    } else {
        assert(s.subrange(0, n) =~= s);
    }
}

/// An element of `s` has a first occurrence, and it holds that element.
pub proof fn lemma_index_of_found<A>(s: Seq<A>, x: A)
    ensures
        s.contains(x) <==> index_of(s, x) is Some,
        index_of(s, x) matches Some(i) ==> 0 <= i < s.len() && s[i] == x,
    decreases s.len(),
{
    if s.len() > 0 {
        lemma_index_of_found(s.drop_last(), x);
        if s.contains(x) && !s.drop_last().contains(x) {
            let k = choose|k: int| 0 <= k < s.len() && s[k] == x;
            if k < s.len() - 1 {
                assert(s.drop_last()[k] == x);
            }
        }
        if s.drop_last().contains(x) {
            let k = choose|k: int| 0 <= k < s.drop_last().len() && s.drop_last()[k] == x;
            assert(s[k] == x);
        }
    }
}

/// Appends `p` to `needed` unless it is there already.
fn register(needed: &mut Vec<ModuleUsePath>, p: Vec<String>)
    requires
        paths_view(old(needed)@).no_duplicates(),
    ensures
        paths_view(final(needed)@).no_duplicates(),
        paths_view(final(needed)@) == if paths_view(old(needed)@).contains(path_view(p@)) {
            paths_view(old(needed)@)
        } else {
            paths_view(old(needed)@).push(path_view(p@))
        },
{
    proof {
        lemma_index_of_found(paths_view(needed@), path_view(p@));
    }
    if position(needed, &p).is_none() {
        let ghost pv = path_view(p@);
        needed.push(p);
        assert(paths_view(needed@) =~= paths_view(old(needed)@).push(pv));
    }
}

/// Distinct indices below `n` are at most `n` in number.
proof fn lemma_distinct_bounded(s: Seq<usize>, n: nat)
    requires
        s.no_duplicates(),
        forall|i: int| 0 <= i < s.len() ==> s[i] < n,
    ensures
        s.len() <= n,
{
    let t = s.map_values(|x: usize| x as int);
    assert(t.no_duplicates()) by {
        assert forall|i: int, j: int| 0 <= i < t.len() && 0 <= j < t.len() && i != j implies t[i] != t[j] by {
            assert(s[i] != s[j]);
        }
    }
    t.unique_seq_to_set();
    lemma_int_range(0, n as int);
    assert(t.to_set().subset_of(set_int_range(0, n as int)));
    lemma_len_subset(t.to_set(), set_int_range(0, n as int));
}

/// The modules of the tree rooted at `m`, in preorder: `m`, then the
/// subtree of each submodule in the order of the declarations.
pub open spec fn subtree(m: Module) -> Seq<Module>
    decreases m, 1int,
{
    seq![m] + forest(m.submodules@, m.submodules@.len() as int)
}

/// The subtrees of the first `n` submodules in `s`, one after the other.
pub open spec fn forest(s: Seq<(String, Module)>, n: int) -> Seq<Module>
    decreases s, n,
{
    if n <= 0 || n > s.len() {
        Seq::empty()
    } else {
        forest(s, n - 1) + subtree(s[n - 1].1)
    }
}

/// The paths that the modules of `all` carry.
pub open spec fn module_paths(all: Seq<Module>) -> Seq<Seq<Seq<char>>> {
    all.map_values(|m: Module| path_view(m.path@))
}

/// The path that item `j` of `m` registers when `m` is visited: a
/// function's module path and name, or an import's whole path.
pub open spec fn item_path(m: Module, j: int) -> Option<Seq<Seq<char>>> {
    match m.items@[j].data {
        Ast::Func(name, _, _, _) => Some(path_view(m.path@).push(name.data@)),
        Ast::Import(p) => Some(path_view(p.data@)),
        Ast::Mod(_) => None,
    }
}

/// The module an item of `m` makes the walk visit: for an import, the first
/// module of `all` whose path is the import's path without its last name.
pub open spec fn import_target(all: Seq<Module>, m: Module, j: int) -> Option<int> {
    match m.items@[j].data {
        Ast::Import(p) => if p.data@.len() > 0 {
            index_of(module_paths(all), path_view(p.data@).drop_last())
        } else {
            None
        },
        _ => None,
    }
}

/// The first `upto` items of `m` have had their paths registered in
/// `needed` and their targets visited.
pub open spec fn items_done(all: Seq<Module>, m: Module, needed: Seq<Seq<Seq<char>>>, order: Seq<usize>, upto: int) -> bool {
    forall|j: int|
        0 <= j < upto ==> {
            &&& (#[trigger] item_path(m, j) matches Some(p) ==> needed.contains(p))
            &&& (import_target(all, m, j) matches Some(t) ==> order.contains(t as usize))
        }
}

/// Each entry of `needed` is the path that some item of a visited module
/// registers.
pub open spec fn needed_justified(all: Seq<Module>, needed: Seq<Seq<Seq<char>>>, order: Seq<usize>) -> bool {
    forall|x: int|
        0 <= x < needed.len() ==> exists|k: int, j: int|
            0 <= k < order.len() && order[k] < all.len() && 0 <= j < all[order[k] as int].items@.len()
                && item_path(all[order[k] as int], j) == Some(#[trigger] needed[x])
}

/// The modules that a list of references points to.
pub open spec fn mods(s: Seq<&Module>) -> Seq<Module> {
    s.map_values(|m: &Module| *m)
}

/// `order` and `needed` are what a complete walk of the tree from the root
/// gives: the visited modules, as indices into `subtree(g)`, the root first
/// and each once; and the registered paths, each once. Every visited module
/// has registered the path of each of its items and visited the target of
/// each of its imports, and every registered path is that of an item of a
/// visited module.
pub open spec fn walk_ok(g: Module, order: Seq<usize>, needed: Seq<Seq<Seq<char>>>) -> bool {
    let all = subtree(g);
    &&& order.len() >= 1 && order[0] == 0
    &&& order.no_duplicates()
    &&& forall|k: int| 0 <= k < order.len() ==> #[trigger] order[k] < all.len()
    &&& needed.no_duplicates()
    &&& forall|k: int| 0 <= k < order.len() ==> items_done(all, all[#[trigger] order[k] as int], needed, order, all[order[k] as int].items@.len() as int)
    &&& needed_justified(all, needed, order)
    &&& forall|k: int| 1 <= k < order.len() ==> #[trigger] reached_by_import(all, order, k)
}

/// The `k`-th visited module is the target of an import of a module visited
/// before it.
pub open spec fn reached_by_import(all: Seq<Module>, order: Seq<usize>, k: int) -> bool {
    exists|q: int, j: int|
        0 <= q < k && order[q] < all.len() && 0 <= j < all[order[q] as int].items@.len()
            && import_target(all, all[order[q] as int], j) == Some(order[k] as int)
}

/// `out` is the list of functions that the needed paths name, each under
/// its mangled name with its body renamed (see `link_items`).
pub open spec fn links(g: Module, needed: Seq<Seq<Seq<char>>>, out: Seq<Spanned<Ast>>) -> bool {
    &&& out.len() == emitted(g, needed, needed.len() as int).len()
    &&& forall|k: int| 0 <= k < out.len() ==> linked_item(g, needed, #[trigger] emitted(g, needed, needed.len() as int)[k], out[k])
}

/// `needed` with `p` registered: appended unless already there.
pub open spec fn register_path(needed: Seq<Seq<Seq<char>>>, p: Seq<Seq<char>>) -> Seq<Seq<Seq<char>>> {
    if needed.contains(p) {
        needed
    } else {
        needed.push(p)
    }
}

/// The walk's visiting order and registered paths after item `j` of the
/// visited module `m`: a function registers its path; an import registers
/// its path and queues its target module unless that was queued before.
pub open spec fn item_step(all: Seq<Module>, st: (Seq<usize>, Seq<Seq<Seq<char>>>), m: Module, j: int) -> (Seq<usize>, Seq<Seq<Seq<char>>>) {
    let (order, needed) = st;
    match m.items@[j].data {
        Ast::Func(name, _, _, _) => (order, register_path(needed, path_view(m.path@).push(name.data@))),
        Ast::Mod(_) => st,
        Ast::Import(p) => {
            let order2 = match import_target(all, m, j) {
                Some(t) => if order.contains(t as usize) {
                    order
                } else {
                    order.push(t as usize)
                },
                None => order,
            };
            (order2, register_path(needed, path_view(p.data@)))
        },
    }
}

/// The walk's state after the items of `m` from index `j` on.
pub open spec fn steps_from(all: Seq<Module>, st: (Seq<usize>, Seq<Seq<Seq<char>>>), m: Module, j: int) -> (Seq<usize>, Seq<Seq<Seq<char>>>)
    decreases m.items@.len() - j,
{
    if j < 0 || j >= m.items@.len() {
        st
    } else {
        steps_from(all, item_step(all, st, m, j), m, j + 1)
    }
}

/// The walk's state once the queued modules from the `k`-th on have been
/// visited, in queue order (at most `fuel` of them).
pub open spec fn walk_from(all: Seq<Module>, st: (Seq<usize>, Seq<Seq<Seq<char>>>), k: int, fuel: int) -> (Seq<usize>, Seq<Seq<Seq<char>>>)
    decreases fuel,
{
    if fuel <= 0 || k < 0 || k >= st.0.len() || st.0[k] >= all.len() {
        st
    } else {
        walk_from(all, steps_from(all, st, all[st.0[k] as int], 0), k + 1, fuel - 1)
    }
}

/// The walk of the tree from its root: the modules visited, as indices into
/// `subtree(g)` in visiting order (first queued, first visited), and the
/// paths registered, in order of first registration.
pub open spec fn walk(g: Module) -> (Seq<usize>, Seq<Seq<Seq<char>>>) {
    walk_from(subtree(g), (seq![0usize], Seq::empty()), 0, subtree(g).len() as int)
}

/// Every module of the tree rooted at `m`, appended to `out`.
fn collect_modules<'a>(m: &'a Module, out: &mut Vec<&'a Module>)
    ensures
        mods(final(out)@) == mods(old(out)@) + subtree(*m),
    decreases m,
{
    let ghost start = out@;
    out.push(m);
    let mut i: usize = 0;
    assert(mods(out@) =~= mods(start) + seq![*m] + forest(m.submodules@, 0));
    while i < m.submodules.len()
        invariant
            i <= m.submodules@.len(),
            mods(out@) == mods(start) + seq![*m] + forest(m.submodules@, i as int),
        decreases m.submodules@.len() - i,
    {
        assert(decreases_to!(m => m.submodules@[i as int].1));
        let ghost before = out@;
        collect_modules(&m.submodules[i].1, out);
        assert(mods(out@) =~= mods(start) + seq![*m] + forest(m.submodules@, i + 1));
        i = i + 1;
    }
    assert(mods(out@) =~= mods(start) + subtree(*m));
}

/// The index of the first module of `all` whose path is `p`.
fn module_index(all: &Vec<&Module>, p: &Vec<String>) -> (r: Option<usize>)
    ensures
        match r {
            Some(i) => index_of(module_paths(mods(all@)), path_view(p@)) == Some(i as int),
            None => index_of(module_paths(mods(all@)), path_view(p@)) is None,
        },
{
    let ghost s = module_paths(mods(all@));
    let mut i: usize = 0;
    while i < all.len()
        invariant
            i <= mods(all@).len(),
            s == module_paths(mods(all@)),
            index_of(s.subrange(0, i as int), path_view(p@)) is None,
        decreases mods(all@).len() - i,
    {
        assert(s.subrange(0, i + 1).drop_last() =~= s.subrange(0, i as int));
        if same_path(&all[i].path, p) {
            proof {
                lemma_index_of_prefix(s, path_view(p@), i + 1);
            }
            return Some(i);
        }
        i = i + 1;
    }
    assert(s.subrange(0, i as int) =~= s);
    None
}

/// The first `n` names of `p`.
fn path_prefix(p: &Vec<String>, n: usize) -> (r: Vec<String>)
    requires
        n <= p@.len(),
    ensures
        path_view(r@) == path_view(p@).subrange(0, n as int),
{
    let mut out: Vec<String> = Vec::new();
    let mut i: usize = 0;
    while i < n
        invariant
            i <= n <= p@.len(),
            out@.len() == i,
            path_view(out@) == path_view(p@).subrange(0, i as int),
        decreases n - i,
    {
        let ghost prev = out@;
        let c = p[i].clone();
        out.push(c);
        assert forall|j: int| 0 <= j < i + 1 implies out@[j]@ == p@[j]@ by {
            if j < i {
                assert(path_view(prev)[j] == path_view(p@).subrange(0, i as int)[j]);
            }
        }
        assert(path_view(out@) =~= path_view(p@).subrange(0, i + 1));
        i = i + 1;
    }
    out
}

/// Walks the module tree from the root. Returns the visited modules, as
/// indices into the preorder listing `subtree(*module_graph)` in the order
/// of their visit, and the registered item paths, each once, in the order
/// of first registration. The root is visited first; a visited module
/// registers the path of each function and import it holds, and an import
/// makes the walk visit the module whose path is the import's path without
/// its last name.
pub fn reachable_items(module_graph: &Module) -> (r: (Vec<usize>, Vec<ModuleUsePath>))
    ensures
        (r.0@, paths_view(r.1@)) == walk(*module_graph),
        walk_ok(*module_graph, r.0@, paths_view(r.1@)),
{
    let mut all: Vec<&Module> = Vec::new();
    collect_modules(module_graph, &mut all);
    assert(mods(all@) =~= subtree(*module_graph));
    let mut marked: Vec<bool> = Vec::new();
    let mut z: usize = 0;
    while z < all.len()
        invariant
            z <= mods(all@).len(),
            marked@.len() == z,
            forall|q: int| 0 <= q < z ==> marked@[q] == (q == 0),
        decreases mods(all@).len() - z,
    {
        marked.push(z == 0);
        z = z + 1;
    }
    let mut order: Vec<usize> = Vec::new();
    order.push(0);
    assert forall|q: int| 0 <= q < mods(all@).len() implies (marked@[q] <==> order@.contains(q as usize)) by {
        if q == 0 {
            assert(order@[0] == 0);
        }
    }
    let mut needed: Vec<ModuleUsePath> = Vec::new();
    assert(paths_view(needed@) =~= Seq::<Seq<Seq<char>>>::empty());
    assert(order@ =~= seq![0usize]);
    let ghost w = walk(*module_graph);
    let mut k: usize = 0;
    while k < order.len()
        invariant
            mods(all@) == subtree(*module_graph),
            mods(all@).len() >= 1,
            marked@.len() == mods(all@).len(),
            order@.len() >= 1,
            order@[0] == 0,
            order@.no_duplicates(),
            forall|q: int| 0 <= q < order@.len() ==> #[trigger] order@[q] < mods(all@).len(),
            forall|q: int| 0 <= q < mods(all@).len() ==> (marked@[q] <==> order@.contains(q as usize)),
            order@.len() <= mods(all@).len(),
            k <= order@.len(),
            paths_view(needed@).no_duplicates(),
            forall|q: int| 0 <= q < k ==> items_done(mods(all@), mods(all@)[#[trigger] order@[q] as int], paths_view(needed@), order@, mods(all@)[order@[q] as int].items@.len() as int),
            needed_justified(mods(all@), paths_view(needed@), order@),
            forall|q: int| 1 <= q < order@.len() ==> #[trigger] reached_by_import(mods(all@), order@, q),
            w == walk(*module_graph),
            w == walk_from(mods(all@), (order@, paths_view(needed@)), k as int, mods(all@).len() - k),
        decreases 2 * mods(all@).len() - order@.len() - k,
    {
        let m = all[order[k]];
        let ghost ol = order@.len();
        assert(w == walk_from(mods(all@), steps_from(mods(all@), (order@, paths_view(needed@)), *m, 0), k + 1, mods(all@).len() - k - 1));
        let mut j: usize = 0;
        while j < m.items.len()
            invariant
                mods(all@) == subtree(*module_graph),
                mods(all@).len() >= 1,
                marked@.len() == mods(all@).len(),
                order@.len() >= 1,
                order@[0] == 0,
                order@.no_duplicates(),
                forall|q: int| 0 <= q < order@.len() ==> #[trigger] order@[q] < mods(all@).len(),
                forall|q: int| 0 <= q < mods(all@).len() ==> (marked@[q] <==> order@.contains(q as usize)),
                order@.len() <= mods(all@).len(),
                k < order@.len(),
                ol <= order@.len(),
                *m == mods(all@)[order@[k as int] as int],
                j <= m.items@.len(),
                paths_view(needed@).no_duplicates(),
                forall|q: int| 0 <= q < k ==> items_done(mods(all@), mods(all@)[#[trigger] order@[q] as int], paths_view(needed@), order@, mods(all@)[order@[q] as int].items@.len() as int),
                items_done(mods(all@), *m, paths_view(needed@), order@, j as int),
                needed_justified(mods(all@), paths_view(needed@), order@),
                forall|q: int| 1 <= q < order@.len() ==> #[trigger] reached_by_import(mods(all@), order@, q),
                w == walk_from(mods(all@), steps_from(mods(all@), (order@, paths_view(needed@)), *m, j as int), k + 1, mods(all@).len() - k - 1),
            decreases m.items@.len() - j,
        {
            let ghost before = paths_view(needed@);
            let ghost order_before = order@;
            let ghost newp: Option<Seq<Seq<char>>> = item_path(*m, j as int);
            let ghost stepped = item_step(mods(all@), (order@, paths_view(needed@)), *m, j as int);
            match &m.items[j].data {
                Ast::Func(name, _, _, _) => {
                    let mut p = copy_path(&m.path);
                    let ghost pv = path_view(p@);
                    p.push(name.data.clone());
                    assert(path_view(p@) =~= pv.push(name.data@));
                    register(&mut needed, p);
                },
                Ast::Mod(_) => {},
                Ast::Import(path) => {
                    let p = &path.data;
                    if p.len() > 0 {
                        let prefix = path_prefix(p, p.len() - 1);
                        assert(path_view(p@).subrange(0, p@.len() - 1) =~= path_view(p@).drop_last());
                        match module_index(&all, &prefix) {
                            None => {},
                            Some(t) => {
                                proof {
                                    lemma_index_of_found(module_paths(mods(all@)), path_view(prefix@));
                                }
                                if !marked[t] {
                                    proof {
                                        lemma_distinct_bounded(order@.push(t), mods(all@).len() as nat);
                                    }
                                    let ghost old_order = order@;
                                    marked.set(t, true);
                                    order.push(t);
                                    assert forall|q: int| 1 <= q < order@.len() implies #[trigger] reached_by_import(mods(all@), order@, q) by {
                                        if q < old_order.len() {
                                            assert(reached_by_import(mods(all@), old_order, q));
                                            let (q2, j2) = choose|q2: int, j2: int|
                                                0 <= q2 < q && old_order[q2] < mods(all@).len() && 0 <= j2 < mods(all@)[old_order[q2] as int].items@.len()
                                                    && import_target(mods(all@), mods(all@)[old_order[q2] as int], j2) == Some(old_order[q] as int);
                                            assert(order@[q2] == old_order[q2]);
                                            assert(order@[q] == old_order[q]);
                                        } else {
                                            assert(order@[k as int] == old_order[k as int]);
                                            assert(import_target(mods(all@), *m, j as int) == Some(t as int));
                                        }
                                    }
                                    assert forall|q: int| 0 <= q < mods(all@).len() implies (marked@[q] <==> order@.contains(q as usize)) by {
                                        if q == t as int {
                                            assert(order@.last() == t);
                                        } else {
                                            if old_order.contains(q as usize) {
                                                let w = choose|w: int| 0 <= w < old_order.len() && old_order[w] == q as usize;
                                                assert(order@[w] == q as usize);
                                            }
                                            if order@.contains(q as usize) {
                                                let w = choose|w: int| 0 <= w < order@.len() && order@[w] == q as usize;
                                                if w == old_order.len() {
                                                    assert(order@[w] == t);
                                                    assert(q < mods(all@).len() == all@.len());
                                                    assert(all@.len() == all.len());
                                                    assert((q as usize) as int == q);
                                                    assert(q == t as int);
                                                }
                                                assert(w < old_order.len());
                                                assert(old_order[w] == q as usize);
                                            }
                                        }
                                    }
                                    assert(order@[order@.len() - 1] == t);
                                } else {
                                    assert(marked@[t as int]);
                                    assert(order@.contains((t as int) as usize));
                                }
                                assert(order@.contains(t));
                            },
                        }
                    }
                    register(&mut needed, copy_path(p));
                },
            }
            proof {
                let nv = paths_view(needed@);
                assert((order@, nv) == stepped);
                assert forall|x: Seq<Seq<char>>| before.contains(x) implies nv.contains(x) by {
                    let w = choose|w: int| 0 <= w < before.len() && before[w] == x;
                    assert(nv[w] == x);
                }
                assert forall|x: usize| order_before.contains(x) implies order@.contains(x) by {
                    let w = choose|w: int| 0 <= w < order_before.len() && order_before[w] == x;
                    assert(order@[w] == x);
                }
                if let Some(p) = newp {
                    assert(nv.contains(p)) by {
                        if !before.contains(p) {
                            assert(nv.last() == p);
                        }
                    }
                }
                assert forall|q: int| 0 <= q < k implies items_done(mods(all@), mods(all@)[#[trigger] order@[q] as int], nv, order@, mods(all@)[order@[q] as int].items@.len() as int) by {
                    assert(order@[q] == order_before[q]);
                    let mq = mods(all@)[order@[q] as int];
                    assert forall|i: int| 0 <= i < mq.items@.len() implies {
                        &&& (#[trigger] item_path(mq, i) matches Some(x) ==> nv.contains(x))
                        &&& (import_target(mods(all@), mq, i) matches Some(t) ==> order@.contains(t as usize))
                    } by {
                        assert(items_done(mods(all@), mq, before, order_before, mq.items@.len() as int));
                        if let Some(x) = item_path(mq, i) {
                            assert(before.contains(x));
                        }
                        if let Some(t) = import_target(mods(all@), mq, i) {
                            assert(order_before.contains(t as usize));
                        }
                    }
                }
                assert forall|i: int| 0 <= i < j + 1 implies {
                    &&& (#[trigger] item_path(*m, i) matches Some(x) ==> nv.contains(x))
                    &&& (import_target(mods(all@), *m, i) matches Some(t) ==> order@.contains(t as usize))
                } by {
                    if i < j {
                        if let Some(x) = item_path(*m, i) {
                            assert(before.contains(x));
                        }
                        if let Some(t) = import_target(mods(all@), *m, i) {
                            assert(order_before.contains(t as usize));
                        }
                    }
                }
                assert forall|x: int| 0 <= x < nv.len() implies exists|kk: int, jj: int|
                    0 <= kk < order@.len() && order@[kk] < mods(all@).len() && 0 <= jj < mods(all@)[order@[kk] as int].items@.len()
                        && item_path(mods(all@)[order@[kk] as int], jj) == Some(#[trigger] nv[x]) by {
                    if x < before.len() {
                        assert(nv[x] == before[x]);
                        let (kk, jj) = choose|kk: int, jj: int|
                            0 <= kk < order_before.len() && order_before[kk] < mods(all@).len() && 0 <= jj < mods(all@)[order_before[kk] as int].items@.len()
                                && item_path(mods(all@)[order_before[kk] as int], jj) == Some(before[x]);
                        assert(order@[kk] == order_before[kk]);
                    } else {
                        assert(nv[x] == newp->0);
                        assert(order@[k as int] == order@[k as int]);
                        assert(item_path(mods(all@)[order@[k as int] as int], j as int) == Some(nv[x]));
                    }
                }
            }
            j = j + 1;
        }
        k = k + 1;
    }
    assert(w == (order@, paths_view(needed@)));
    (order, needed)
}

/// The paths of every item reachable from the root module, each once, in
/// the order of first discovery (see `reachable_items`).
pub fn get_items_needed(module_graph: &Module) -> (r: Vec<ModuleUsePath>)
    ensures
        paths_view(r@) == walk(*module_graph).1,
        exists|order: Seq<usize>| walk_ok(*module_graph, order, paths_view(r@)),
        paths_view(r@).no_duplicates(),
        funcs_registered(*module_graph, paths_view(r@), module_graph.items@.len() as int),
{
    let (order, needed) = reachable_items(module_graph);
    proof {
        assert(walk_ok(*module_graph, order@, paths_view(needed@)));
        let all = subtree(*module_graph);
        assert(all[0] == *module_graph);
        assert(items_done(all, all[order@[0] as int], paths_view(needed@), order@, all[order@[0] as int].items@.len() as int));
        assert forall|j: int| 0 <= j < module_graph.items@.len() implies (#[trigger] func_path(*module_graph, j) matches Some(p) ==> paths_view(needed@).contains(p)) by {
            if let Some(p) = func_path(*module_graph, j) {
                assert(item_path(*module_graph, j) == Some(p));
            }
        }
    }
    needed
}

proof fn lemma_find_func_first(items: Seq<Spanned<Ast>>, n: Seq<char>, i: int)
    requires
        0 <= i < items.len(),
        is_func_named(items[i], n),
        forall|j: int| 0 <= j < i ==> !is_func_named(#[trigger] items[j], n),
    ensures
        find_func(items, n) == Some(i),
    decreases items.len(),
{
    if items.len() - 1 > i {
        lemma_find_func_first(items.drop_last(), n, i);
    } else {
        lemma_find_func_none(items.drop_last(), n);
    }
}

proof fn lemma_find_func_none(items: Seq<Spanned<Ast>>, n: Seq<char>)
    requires
        forall|j: int| 0 <= j < items.len() ==> !is_func_named(#[trigger] items[j], n),
    ensures
        find_func(items, n) is None,
    decreases items.len(),
{
    if items.len() > 0 {
        lemma_find_func_none(items.drop_last(), n);
    }
}

/// The index of the first function of `m` named `name`.
fn find_function(m: &Module, name: &String) -> (r: Option<usize>)
    ensures
        match r {
            Some(j) => find_func(m.items@, name@) == Some(j as int) && j < m.items@.len(),
            None => find_func(m.items@, name@) is None,
        },
{
    let mut i: usize = 0;
    while i < m.items.len()
        invariant
            i <= m.items@.len(),
            forall|j: int| 0 <= j < i ==> !is_func_named(#[trigger] m.items@[j], name@),
        decreases m.items@.len() - i,
    {
        if let Ast::Func(f, _, _, _) = &m.items[i].data {
            if f.data == *name {
                proof {
                    lemma_find_func_first(m.items@, name@, i as int);
                }
                return Some(i);
            }
        }
        i = i + 1;
    }
    proof {
        lemma_find_func_none(m.items@, name@);
    }
    None
}

/// The first function found by `find_func` is a function of that name.
pub proof fn lemma_find_func_is_func(items: Seq<Spanned<Ast>>, n: Seq<char>)
    ensures
        find_func(items, n) matches Some(i) ==> 0 <= i < items.len() && is_func_named(items[i], n),
    decreases items.len(),
{
    if items.len() > 0 {
        lemma_find_func_is_func(items.drop_last(), n);
    }
}

/// The module of the item path `path`, and the index of the function it
/// names there.
pub fn get_path<'b>(module: &'b Module, path: &Vec<String>) -> (r: Option<(&'b Module, usize)>)
    ensures
        match r {
            Some((m, j)) => item_at(*module, path_view(path@)) == Some((*m, j as int)) && j < m.items@.len(),
            None => item_at(*module, path_view(path@)) is None,
        },
{
    if path.len() == 0 {
        return None;
    }
    let last = path.len() - 1;
    assert(path_view(path@).subrange(0, last as int) =~= path_view(path@).drop_last());
    match module.get_module_prefix(path.as_slice(), last) {
        None => None,
        Some(m) => match find_function(m, &path[last]) {
            None => None,
            Some(j) => Some((m, j)),
        },
    }
}

/// The renaming table of `module`.
fn load_items_in_scope(module: &Module, items_needed: &Vec<ModuleUsePath>) -> (r: Vec<(String, String)>)
    ensures
        table_view(r@) == scope_table(*module, paths_view(items_needed@), module.items@.len() as int),
{
    let ghost nv = paths_view(items_needed@);
    let mut hm: Vec<(String, String)> = Vec::new();
    let mut i: usize = 0;
    assert(table_view(hm@) =~= Seq::<(Seq<char>, Seq<char>)>::empty());
    while i < module.items.len()
        invariant
            i <= module.items@.len(),
            nv == paths_view(items_needed@),
            table_view(hm@) == scope_table(*module, nv, i as int),
        decreases module.items@.len() - i,
    {
        let ghost prev = table_view(hm@);
        match &module.items[i].data {
            Ast::Func(name, _, _, _) => {
                let mut path = copy_path(&module.path);
                let ghost pv = path_view(path@);
                path.push(name.data.clone());
                assert(path_view(path@) =~= pv.push(name.data@));
                if let Some(id) = position(items_needed, &path) {
                    let m = mangle_name(id, &path);
                    hm.push((name.data.clone(), m));
                    assert(table_view(hm@) =~= prev.push((name.data@, m@)));
                }
            },
            Ast::Mod(_) => {},
            Ast::Import(path) => {
                if let Some(id) = position(items_needed, &path.data) {
                    if path.data.len() > 0 {
                        let m = mangle_name(id, &path.data);
                        let last = path.data[path.data.len() - 1].clone();
                        hm.push((last, m));
                        assert(table_view(hm@) =~= prev.push((path_view(path.data@).last(), m@)));
                    }
                }
            },
        }
        i = i + 1;
    }
    hm
}

/// The indices of `emitted` increase and stay below `n`.
pub proof fn lemma_emitted_increasing(g: Module, needed: Seq<Seq<Seq<char>>>, n: int)
    ensures
        forall|a: int| 0 <= a < emitted(g, needed, n).len() ==> 0 <= #[trigger] emitted(g, needed, n)[a] < n
            && emitted(g, needed, n)[a] < needed.len(),
        forall|a: int, b: int| 0 <= a < b < emitted(g, needed, n).len() ==> emitted(g, needed, n)[a]
            < emitted(g, needed, n)[b],
    decreases n,
{
    if n > 0 && n <= needed.len() {
        lemma_emitted_increasing(g, needed, n - 1);
        let prev = emitted(g, needed, n - 1);
        let e = emitted(g, needed, n);
        if item_at(g, needed[n - 1]) is Some {
            assert(e == prev.push(n - 1));
            assert forall|a: int| 0 <= a < e.len() implies 0 <= #[trigger] e[a] < n && e[a] < needed.len() by {
                if a < prev.len() {
                    assert(e[a] == prev[a]);
                }
            }
            assert forall|a: int, b: int| 0 <= a < b < e.len() implies e[a] < e[b] by {
                assert(e[a] == prev[a]);
                if b < prev.len() {
                    assert(e[b] == prev[b]);
                }
            }
        } else {
            assert(e == prev);
        }
    }
}

/// The functions named by the needed items, in order, each under its
/// mangled name and with its body renamed by the table of its module.
pub fn link_items(module_graph: &Module, items_needed: &Vec<ModuleUsePath>) -> (r: Vec<Spanned<Ast>>)
    ensures
        r@.len() == emitted(*module_graph, paths_view(items_needed@), items_needed@.len() as int).len(),
        forall|k: int| 0 <= k < r@.len() ==> linked_item(
            *module_graph,
            paths_view(items_needed@),
            #[trigger] emitted(*module_graph, paths_view(items_needed@), items_needed@.len() as int)[k],
            r@[k],
        ),
{
    let ghost nv = paths_view(items_needed@);
    let mut out: Vec<Spanned<Ast>> = Vec::new();
    let mut i: usize = 0;
    while i < items_needed.len()
        invariant
            i <= items_needed@.len(),
            nv == paths_view(items_needed@),
            out@.len() == emitted(*module_graph, nv, i as int).len(),
            forall|k: int| 0 <= k < out@.len() ==> linked_item(
                *module_graph,
                nv,
                #[trigger] emitted(*module_graph, nv, i as int)[k],
                out@[k],
            ),
        decreases items_needed@.len() - i,
    {
        let ghost prev = out@;
        match get_path(module_graph, &items_needed[i]) {
            None => {},
            Some((m, j)) => {
                proof {
                    lemma_find_func_is_func(m.items@, nv[i as int].last());
                }
                let table = load_items_in_scope(m, items_needed);
                let item = &m.items[j];
                if let Ast::Func(name, ret, params, body) = &item.data {
                    let f = Ast::Func(
                        Spanned { span: name.span, data: mangle_name(i, &items_needed[i]) },
                        Spanned { span: ret.span, data: ret.data },
                        copy_params(params),
                        crate::rename::replace_block(&table, &names_of_params(params), body),
                    );
                    let s = Spanned { span: item.span, data: f };
                    out.push(s);
                    proof {
                        assert(linked_item(*module_graph, nv, i as int, s));
                        assert forall|k: int| 0 <= k < out@.len() implies linked_item(
                            *module_graph,
                            nv,
                            #[trigger] emitted(*module_graph, nv, i + 1)[k],
                            out@[k],
                        ) by {
                            if k < prev.len() {
                                assert(emitted(*module_graph, nv, i + 1)[k] == emitted(*module_graph, nv, i as int)[k]);
                            }
                        }
                    }
                }
            },
        }
        i = i + 1;
    }
    out
}

/// Links the program rooted at `module_graph`: every function reachable
/// from the root, each once, under a name no other emitted function has.
/// The result is what `link_items` gives for the paths that the walk of the
/// tree registers, which are those `get_items_needed` returns.
pub fn link(module_graph: &Module) -> (r: Vec<Spanned<Ast>>)
    ensures
        walk_ok(*module_graph, walk(*module_graph).0, walk(*module_graph).1),
        links(*module_graph, walk(*module_graph).1, r@),
        names_distinct(r@),
        forall|k: int| 0 <= k < r@.len() ==> (#[trigger] r@[k].data matches Ast::Func(_, _, _, _)),
        module_graph.path@.len() == 0 && (exists|j: int| 0 <= j < module_graph.items@.len() && is_func_named(
            #[trigger] module_graph.items@[j],
            entry_name(),
        )) ==> exactly_one_named(r@, entry_name()),
{
    let (order, items_needed) = reachable_items(module_graph);
    let r = link_items(module_graph, &items_needed);
    proof {
        if module_graph.path@.len() == 0 && (exists|j: int| 0 <= j < module_graph.items@.len() && is_func_named(
            #[trigger] module_graph.items@[j],
            entry_name(),
        )) {
            let j = choose|j: int| 0 <= j < module_graph.items@.len() && is_func_named(#[trigger] module_graph.items@[j], entry_name());
            lemma_linked_names_unique(*module_graph, paths_view(items_needed@), r@);
            lemma_entry_emitted(*module_graph, order@, paths_view(items_needed@), r@, j);
        }
        assert(walk_ok(*module_graph, order@, paths_view(items_needed@)) && links(*module_graph, paths_view(items_needed@), r@));
        lemma_linked_names_unique(*module_graph, paths_view(items_needed@), r@);
        assert forall|k: int| 0 <= k < r@.len() implies (#[trigger] r@[k].data matches Ast::Func(_, _, _, _)) by {
            let e = emitted(*module_graph, paths_view(items_needed@), items_needed@.len() as int);
            assert(linked_item(*module_graph, paths_view(items_needed@), e[k], r@[k]));
        }
    }
    r
}

/// Exactly one function of `out` is named `x`.
pub open spec fn exactly_one_named(out: Seq<Spanned<Ast>>, x: Seq<char>) -> bool {
    exists|k: int| 0 <= k < out.len() && func_name(out[k]) == x && forall|q: int| 0 <= q < out.len() && func_name(#[trigger] out[q]) == x ==> q == k
}

/// A root with the empty path that defines the entry function has it
/// emitted under the entry name.
proof fn lemma_entry_emitted(g: Module, order: Seq<usize>, needed: Seq<Seq<Seq<char>>>, out: Seq<Spanned<Ast>>, j: int)
    requires
        walk_ok(g, order, needed),
        links(g, needed, out),
        names_distinct(out),
        g.path@.len() == 0,
        0 <= j < g.items@.len(),
        is_func_named(g.items@[j], entry_name()),
    ensures
        exactly_one_named(out, entry_name()),
{
    let all = subtree(g);
    assert(all[0] == g);
    assert(items_done(all, all[order[0] as int], needed, order, all[order[0] as int].items@.len() as int));
    let p = seq![entry_name()];
    assert(path_view(g.path@) =~= Seq::<Seq<char>>::empty());
    assert(path_view(g.path@).push(entry_name()) =~= p);
    assert(item_path(g, j) == Some(p));
    assert(needed.contains(p));
    lemma_index_of_found(needed, p);
    let id = index_of(needed, p)->0;
    assert(p.drop_last() =~= Seq::<Seq<char>>::empty());
    assert(module_at(g, p.drop_last()) == Some(g));
    lemma_find_func_hit(g.items@, j, entry_name());
    assert(item_at(g, needed[id]) is Some);
    lemma_emitted_contains(g, needed, needed.len() as int, id);
    let e = emitted(g, needed, needed.len() as int);
    let k = choose|k: int| 0 <= k < e.len() && e[k] == id;
    assert(linked_item(g, needed, e[k], out[k]));
    assert(func_name(out[k]) == mangled(id as nat, p));
    assert forall|q: int| 0 <= q < out.len() && func_name(#[trigger] out[q]) == entry_name() implies q == k by {
        if q != k {
            if q < k {
                assert(func_name(out[q]) != func_name(out[k]));
            } else {
                assert(func_name(out[k]) != func_name(out[q]));
            }
        }
    }
}

/// Every emitted function gets a name unique among all emitted names: for a
/// list of needed item paths without repetition, the functions that
/// `link_items` describes have pairwise distinct names.
pub proof fn lemma_linked_names_unique(g: Module, needed: Seq<Seq<Seq<char>>>, out: Seq<Spanned<Ast>>)
    requires
        needed.no_duplicates(),
        links(g, needed, out),
    ensures
        names_distinct(out),
{
    let e = emitted(g, needed, needed.len() as int);
    lemma_emitted_increasing(g, needed, needed.len() as int);
    assert forall|a: int, b: int| 0 <= a < b < out.len() implies func_name(out[a]) != func_name(out[b]) by {
        assert(linked_item(g, needed, e[a], out[a]));
        assert(linked_item(g, needed, e[b], out[b]));
        assert(e[a] < e[b]);
        assert(func_name(out[a]) == mangled(e[a] as nat, needed[e[a]]));
        assert(func_name(out[b]) == mangled(e[b] as nat, needed[e[b]]));
        crate::names::lemma_mangled_distinct(e[a] as nat, needed[e[a]], e[b] as nat, needed[e[b]]);
    }
}

/// Each item path is emitted at most once: for needed item paths without
/// repetition, distinct emitted functions come from distinct paths.
pub proof fn lemma_emitted_once(g: Module, needed: Seq<Seq<Seq<char>>>)
    requires
        needed.no_duplicates(),
    ensures
        forall|a: int, b: int| 0 <= a < b < emitted(g, needed, needed.len() as int).len() ==> needed[emitted(g, needed, needed.len() as int)[a]]
            != needed[emitted(g, needed, needed.len() as int)[b]],
{
    lemma_emitted_increasing(g, needed, needed.len() as int);
}

/// An index of a needed item that names a function is among the emitted
/// indices.
proof fn lemma_emitted_contains(g: Module, needed: Seq<Seq<Seq<char>>>, n: int, id: int)
    requires
        0 <= id < n <= needed.len(),
        item_at(g, needed[id]) is Some,
    ensures
        emitted(g, needed, n).contains(id),
    decreases n,
{
    if id < n - 1 {
        lemma_emitted_contains(g, needed, n - 1, id);
        let prev = emitted(g, needed, n - 1);
        let w = choose|w: int| 0 <= w < prev.len() && prev[w] == id;
        assert(emitted(g, needed, n)[w] == id);
    } else {
        assert(emitted(g, needed, n).last() == id);
    }
}

/// Each entry of a renaming table comes from a function or an import of
/// the module, whose path is needed at the index the entry's name encodes.
proof fn lemma_table_entry(m: Module, needed: Seq<Seq<Seq<char>>>, n: int, e: int)
    requires
        0 <= n <= m.items@.len(),
        0 <= e < scope_table(m, needed, n).len(),
    ensures
        exists|j: int, id: int| #![trigger m.items@[j], needed[id]]
            0 <= j < n && 0 <= id < needed.len() && scope_table(m, needed, n)[e].1 == mangled(id as nat, needed[id]) && (
            (m.items@[j].data matches Ast::Func(name, _, _, _) && needed[id] == path_view(m.path@).push(name.data@))
            || (m.items@[j].data matches Ast::Import(p) && needed[id] == path_view(p.data@) && path_view(p.data@).len() > 0)),
    decreases n,
{
    let prev = scope_table(m, needed, n - 1);
    if e < prev.len() {
        lemma_table_entry(m, needed, n - 1, e);
        assert(scope_table(m, needed, n)[e] == prev[e]);
    } else {
        match m.items@[n - 1].data {
            Ast::Func(name, _, _, _) => {
                let p = path_view(m.path@).push(name.data@);
                lemma_index_of_found(needed, p);
            },
            Ast::Import(path) => {
                lemma_index_of_found(needed, path_view(path.data@));
            },
            Ast::Mod(_) => {},
        }
    }
}

/// Module-level checking that succeeds resolves every import.
proof fn lemma_globals_resolve(g: Module, items: Seq<Spanned<Ast>>, n: int, j: int)
    requires
        0 <= j < n <= items.len(),
        globals(g, items, n) is Ok,
        items[j].data is Import,
    ensures
        resolve_import(g, items[j].data->Import_0) is Ok,
    decreases n,
{
    if j < n - 1 {
        lemma_globals_resolve(g, items, n - 1, j);
    }
}

/// A name in an export table computed from items is the name of one of the
/// functions among them.
proof fn lemma_export_is_func(items: Seq<Spanned<Ast>>, n: int, name: Seq<char>)
    requires
        0 <= n <= items.len(),
        find_export(exports_of(items, n), name) is Some,
    ensures
        find_func(items, name) is Some,
    decreases n,
{
    if n > 0 {
        let prev = exports_of(items, n - 1);
        match items[n - 1].data {
            Ast::Func(f, ret, params, _) => {
                let next = exports_of(items, n);
                assert(next == prev.push((f.data@, crate::module::function_view(params@, ret.data))));
                if f.data@ == name {
                    lemma_find_func_hit(items, n - 1, name);
                } else {
                    assert(next.drop_last() =~= prev);
                    lemma_export_is_func(items, n - 1, name);
                }
            },
            _ => {
                lemma_export_is_func(items, n - 1, name);
            },
        }
    }
}

/// A function of that name among the first `n + 1` items is found.
proof fn lemma_find_func_hit(items: Seq<Spanned<Ast>>, j: int, name: Seq<char>)
    requires
        0 <= j < items.len(),
        is_func_named(items[j], name),
    ensures
        find_func(items, name) is Some,
    decreases items.len(),
{
    if j < items.len() - 1 {
        lemma_find_func_hit(items.drop_last(), j, name);
    }
}

/// Linking never makes a reference name something that is not emitted:
/// every name that the renaming table of a module puts in place of a
/// reference is the name of an emitted function. This holds of a module
/// that sits at its own path in the graph, whose imports resolve, in a
/// graph whose export tables were computed from the modules' items.
pub proof fn lemma_renamed_targets_emitted(
    g: Module,
    m: Module,
    needed: Seq<Seq<Seq<char>>>,
    out: Seq<Spanned<Ast>>,
)
    requires
        module_at(g, path_view(m.path@)) == Some(m),
        forall|p: Seq<Seq<char>>| #[trigger] module_at(g, p) matches Some(x) ==> x.spec_exports() == exports_of(
            x.items@,
            x.items@.len() as int,
        ),
        globals(g, m.items@, m.items@.len() as int) is Ok,
        links(g, needed, out),
    ensures
        forall|e: int| 0 <= e < scope_table(m, needed, m.items@.len() as int).len() ==> is_emitted_name(
            out,
            #[trigger] scope_table(m, needed, m.items@.len() as int)[e].1,
        ),
{
    let n = m.items@.len() as int;
    let t = scope_table(m, needed, n);
    assert forall|e: int| 0 <= e < t.len() implies is_emitted_name(out, #[trigger] t[e].1) by {
        lemma_table_entry(m, needed, n, e);
        let (j, id) = choose|j: int, id: int| #![trigger m.items@[j], needed[id]]
            0 <= j < n && 0 <= id < needed.len() && t[e].1 == mangled(id as nat, needed[id]) && (
            (m.items@[j].data matches Ast::Func(name, _, _, _) && needed[id] == path_view(m.path@).push(name.data@))
            || (m.items@[j].data matches Ast::Import(p) && needed[id] == path_view(p.data@) && path_view(p.data@).len() > 0));
        match m.items@[j].data {
            Ast::Func(name, _, _, _) => {
                let p = needed[id];
                assert(p.drop_last() =~= path_view(m.path@));
                lemma_find_func_hit(m.items@, j, name.data@);
            },
            Ast::Import(path) => {
                lemma_globals_resolve(g, m.items@, n, j);
                let p = path_view(path.data@);
                let target = module_at(g, p.drop_last())->0;
                assert(module_at(g, p.drop_last()) matches Some(x) ==> x.spec_exports() == exports_of(x.items@, x.items@.len() as int));
                lemma_export_is_func(target.items@, target.items@.len() as int, p.last());
            },
            Ast::Mod(_) => {},
        }
        lemma_emitted_contains(g, needed, needed.len() as int, id);
        let eseq = emitted(g, needed, needed.len() as int);
        let k = choose|k: int| 0 <= k < eseq.len() && eseq[k] == id;
        assert(linked_item(g, needed, eseq[k], out[k]));
        assert(func_name(out[k]) == t[e].1);
    }
}

/// Each function that a needed path names is emitted exactly once: for a
/// list of needed paths without repetition, a path of the list that names a
/// function is the source of exactly one emitted function.
pub proof fn lemma_emitted_exactly_once(g: Module, needed: Seq<Seq<Seq<char>>>, p: Seq<Seq<char>>)
    requires
        needed.no_duplicates(),
        needed.contains(p),
        item_at(g, p) is Some,
    ensures
        ({
            let e = emitted(g, needed, needed.len() as int);
            exists|k: int| 0 <= k < e.len() && needed[e[k]] == p && forall|q: int| 0 <= q < e.len() && needed[#[trigger] e[q]] == p ==> q == k
        }),
{
    let e = emitted(g, needed, needed.len() as int);
    lemma_index_of_found(needed, p);
    let id = index_of(needed, p)->0;
    lemma_emitted_contains(g, needed, needed.len() as int, id);
    lemma_emitted_increasing(g, needed, needed.len() as int);
    let k = choose|k: int| 0 <= k < e.len() && e[k] == id;
    assert forall|q: int| 0 <= q < e.len() && needed[#[trigger] e[q]] == p implies q == k by {
        if q != k {
            if q < k {
                assert(e[q] < e[k]);
            } else {
                assert(e[k] < e[q]);
            }
            assert(needed[e[q]] == needed[e[k]]);
        }
    }
}

/// No two submodules of any module of the tree rooted at `m` share a name.
pub open spec fn names_unique(m: Module) -> bool
    decreases m,
{
    &&& forall|i: int, j: int| 0 <= i < j < m.submodules@.len() ==> m.submodules@[i].0@ != m.submodules@[j].0@
    &&& forall|k: int| 0 <= k < m.submodules@.len() ==> names_unique(#[trigger] m.submodules@[k].1)
}

/// Module `x` lies below `m` at the path it carries.
pub open spec fn placed(m: Module, x: Module) -> bool {
    let base = path_view(m.path@);
    let p = path_view(x.path@);
    &&& base.len() <= p.len()
    &&& p.subrange(0, base.len() as int) == base
    &&& module_at(m, p.subrange(base.len() as int, p.len() as int)) == Some(x)
}

proof fn lemma_find_sub_unique(s: Seq<(String, Module)>, k: int)
    requires
        0 <= k < s.len(),
        forall|i: int, j: int| 0 <= i < j < s.len() ==> s[i].0@ != s[j].0@,
    ensures
        crate::module::find_sub(s, s[k].0@) == Some(k),
    decreases s.len(),
{
    if k < s.len() - 1 {
        assert(s.last().0@ != s[k].0@);
        lemma_find_sub_unique(s.drop_last(), k);
    }
}

proof fn lemma_subtree_placed(m: Module)
    requires
        crate::module::tree_paths_ok(m),
        names_unique(m),
    ensures
        forall|t: int| 0 <= t < subtree(m).len() ==> placed(m, #[trigger] subtree(m)[t]),
    decreases m, m.submodules@.len() + 1,
{
    let base = path_view(m.path@);
    assert(base.subrange(0, base.len() as int) =~= base);
    assert(base.subrange(base.len() as int, base.len() as int) =~= Seq::<Seq<char>>::empty());
    assert(placed(m, m));
    lemma_forest_placed(m, m.submodules@.len() as int);
    let f = forest(m.submodules@, m.submodules@.len() as int);
    assert forall|t: int| 0 <= t < subtree(m).len() implies placed(m, #[trigger] subtree(m)[t]) by {
        if t > 0 {
            assert(subtree(m)[t] == f[t - 1]);
        }
    }
}

proof fn lemma_forest_placed(m: Module, n: int)
    requires
        0 <= n <= m.submodules@.len(),
        crate::module::tree_paths_ok(m),
        names_unique(m),
    ensures
        forall|t: int| 0 <= t < forest(m.submodules@, n).len() ==> placed(m, #[trigger] forest(m.submodules@, n)[t]),
    decreases m, n,
{
    if n > 0 {
        lemma_forest_placed(m, n - 1);
        let s = m.submodules@;
        let c = s[n - 1].1;
        assert(decreases_to!(m => c));
        assert(crate::module::tree_paths_ok(c));
        assert(names_unique(c));
        lemma_subtree_placed(c);
        lemma_find_sub_unique(s, n - 1);
        let prev = forest(s, n - 1);
        let sub = subtree(c);
        let cur = forest(s, n);
        assert(cur == prev + sub);
        let base = path_view(m.path@);
        let cb = path_view(c.path@);
        assert(cb == base.push(s[n - 1].0@));
        assert forall|t: int| 0 <= t < cur.len() implies placed(m, #[trigger] cur[t]) by {
            if t < prev.len() {
                assert(cur[t] == prev[t]);
            } else {
                let x = sub[t - prev.len()];
                assert(cur[t] == x);
                assert(placed(c, x));
                let p = path_view(x.path@);
                let rel_c = p.subrange(cb.len() as int, p.len() as int);
                let rel_m = p.subrange(base.len() as int, p.len() as int);
                assert(p.subrange(0, base.len() as int) =~= cb.subrange(0, base.len() as int));
                assert(cb.subrange(0, base.len() as int) =~= base);
                assert(cb.len() == base.len() + 1);
                assert(p.subrange(0, cb.len() as int) == cb);
                assert(p.subrange(0, cb.len() as int)[base.len() as int] == p[base.len() as int]);
                assert(cb[base.len() as int] == s[n - 1].0@);
                assert(rel_m[0] == p[base.len() as int]);
                assert(rel_m[0] == s[n - 1].0@);
                assert(rel_m.drop_first() =~= rel_c);
                assert(module_at(m, rel_m) == module_at(c, rel_c));
            }
        }
    }
}

/// In a well-formed tree (the root has the empty path, every module sits at
/// the path it carries, and no two submodules of a module share a name),
/// the module the walk visits for an import is the module that the
/// import's path without its last name leads to, and the walk finds one
/// whenever that path leads to a module.
pub proof fn lemma_import_target_is_module_at(g: Module, m: Module, j: int)
    requires
        g.path@.len() == 0,
        crate::module::tree_paths_ok(g),
        names_unique(g),
        0 <= j < m.items@.len(),
        m.items@[j].data matches Ast::Import(p) && p.data@.len() > 0,
    ensures
        ({
            let p = path_view(m.items@[j].data->Import_0.data@).drop_last();
            &&& (import_target(subtree(g), m, j) matches Some(t) ==> 0 <= t < subtree(g).len() && module_at(g, p) == Some(subtree(g)[t]))
            &&& (module_at(g, p) is Some ==> import_target(subtree(g), m, j) is Some)
        }),
{
    let all = subtree(g);
    let p = path_view(m.items@[j].data->Import_0.data@).drop_last();
    lemma_subtree_placed(g);
    lemma_index_of_found(module_paths(all), p);
    if let Some(t) = index_of(module_paths(all), p) {
        assert(placed(g, all[t]));
        assert(module_paths(all)[t] == p);
        assert(path_view(all[t].path@).subrange(0, path_view(all[t].path@).len() as int) =~= p);
    }
    if module_at(g, p) is Some {
        lemma_module_at_in_subtree(g, p);
        let x = module_at(g, p)->0;
        let t = choose|t: int| 0 <= t < all.len() && all[t] == x;
        assert(module_paths(all)[t] == path_view(x.path@));
        assert(module_paths(all).contains(p));
    }
}

/// A module reached by a path in a tree whose modules sit at their paths is
/// one of the tree's modules, and carries the path it was reached by.
proof fn lemma_module_at_in_subtree(m: Module, p: Seq<Seq<char>>)
    requires
        crate::module::tree_paths_ok(m),
        module_at(m, p) is Some,
    ensures
        subtree(m).contains(module_at(m, p)->0),
        path_view((module_at(m, p)->0).path@) == path_view(m.path@) + p,
    decreases p.len(),
{
    if p.len() == 0 {
        assert(subtree(m)[0] == m);
        assert(path_view(m.path@) + p =~= path_view(m.path@));
    } else {
        let s = m.submodules@;
        let k = crate::module::find_sub(s, p[0])->0;
        lemma_find_sub_bounds(s, p[0]);
        let c = s[k].1;
        assert(crate::module::tree_paths_ok(c));
        lemma_module_at_in_subtree(c, p.drop_first());
        let x = module_at(c, p.drop_first())->0;
        assert(module_at(m, p) == Some(x));
        assert(path_view(c.path@) == path_view(m.path@).push(p[0]));
        assert(path_view(m.path@).push(p[0]) + p.drop_first() =~= path_view(m.path@) + p);
        lemma_forest_contains(s, k + 1, k, x);
        let f = forest(s, s.len() as int);
        lemma_forest_grows(s, k + 1, s.len() as int);
        let fk = forest(s, k + 1);
        assert(fk.contains(x));
        let w = choose|w: int| 0 <= w < fk.len() && #[trigger] fk[w] == x;
        assert(f.subrange(0, fk.len() as int)[w] == fk[w]);
        assert(f[w] == x);
        assert(subtree(m)[w + 1] == x);
    }
}

proof fn lemma_find_sub_bounds(s: Seq<(String, Module)>, n: Seq<char>)
    ensures
        crate::module::find_sub(s, n) matches Some(k) ==> 0 <= k < s.len() && s[k].0@ == n,
    decreases s.len(),
{
    if s.len() > 0 {
        lemma_find_sub_bounds(s.drop_last(), n);
    }
}

proof fn lemma_forest_contains(s: Seq<(String, Module)>, n: int, k: int, x: Module)
    requires
        0 <= k < n <= s.len(),
        k == n - 1,
        subtree(s[k].1).contains(x),
    ensures
        forest(s, n).contains(x),
{
    let prev = forest(s, n - 1);
    let w = choose|w: int| 0 <= w < subtree(s[k].1).len() && subtree(s[k].1)[w] == x;
    assert(forest(s, n)[prev.len() + w] == x);
}

proof fn lemma_forest_grows(s: Seq<(String, Module)>, n: int, m: int)
    requires
        0 <= n <= m <= s.len(),
    ensures
        forest(s, m).subrange(0, forest(s, n).len() as int) == forest(s, n),
        forest(s, n).len() <= forest(s, m).len(),
    decreases m - n,
{
    if n < m {
        lemma_forest_grows(s, n, m - 1);
        let a = forest(s, m - 1);
        assert(forest(s, m).subrange(0, a.len() as int) =~= a);
        assert(forest(s, m).subrange(0, forest(s, n).len() as int) =~= a.subrange(0, forest(s, n).len() as int));
    } else {
        assert(forest(s, n).subrange(0, forest(s, n).len() as int) =~= forest(s, n));
    }
}

} // verus!
