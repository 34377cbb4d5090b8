//! The module tree: each file's items, its submodules, and its export table.
use vstd::prelude::*;
use crate::ast::{Ast, Param, Span, Spanned, Typ};
use crate::types::{copy_typs, typ_view, Type, TypeView};
use vstd::string::{StrSliceExecFns, StringExecFns};

verus! {

/// A path of names from the root module.
pub type ModuleUsePath = Vec<String>;

/// A loaded source file and everything declared under it.
#[derive(Debug)]
pub struct Module {
    pub items: Vec<Spanned<Ast>>,
    /// Submodules, keyed by the name they were declared under, in the
    /// order of their declarations. Where a name is declared twice, the
    /// last submodule of that name is the one paths lead to.
    pub submodules: Vec<(String, Module)>,
    /// Name and type of each function of `items`, in order. Where two
    /// functions share a name, both are listed and lookups by name find the
    /// last.
    pub exports: Vec<(String, Type)>,
    pub path: ModuleUsePath,
}

/// Why a module tree could not be built.
#[derive(Debug, PartialEq, Eq)]
pub enum LoadError {
    /// A file could not be read; the reason as reported by the system.
    IOError(String),
    /// A file could not be parsed; the parser's own message.
    ParseError(String),
    /// A declared submodule has no file: the declaration, and the file that
    /// was looked for.
    ModuleFileNotFound(Spanned<String>),
}

/// The type of a function with these parameters and return type.
pub open spec fn function_view(params: Seq<Spanned<Param>>, ret: Typ) -> TypeView {
    TypeView::Function(params.map_values(|p: Spanned<Param>| p.data.1.data), ret)
}

/// The export table of the first `n` items: one entry for each function, in
/// order, with its declared parameter and return types.
pub open spec fn exports_of(items: Seq<Spanned<Ast>>, n: int) -> Seq<(Seq<char>, TypeView)>
    decreases n,
{
    if n <= 0 || n > items.len() {
        Seq::empty()
    } else {
        let prev = exports_of(items, n - 1);
        match items[n - 1].data {
            Ast::Func(name, ret, params, _) => prev.push((name.data@, function_view(params@, ret.data))),
            _ => prev,
        }
    }
}

/// What an export table denotes.
pub open spec fn exports_view(e: Seq<(String, Type)>) -> Seq<(Seq<char>, TypeView)> {
    e.map_values(|x: (String, Type)| (x.0@, x.1@))
}

/// The last entry of `e` named `n`: a later entry under a name replaces an
/// earlier one.
pub open spec fn find_export(e: Seq<(Seq<char>, TypeView)>, n: Seq<char>) -> Option<TypeView>
    decreases e.len(),
{
    if e.len() == 0 {
        None
    } else if e.last().0 == n {
        Some(e.last().1)
    } else {
        find_export(e.drop_last(), n)
    }
}

/// The index of the last submodule declared as `n`: a later declaration of
/// a name replaces an earlier one.
pub open spec fn find_sub(s: Seq<(String, Module)>, n: Seq<char>) -> Option<int>
    decreases s.len(),
{
    if s.len() == 0 {
        None
    } else if s.last().0@ == n {
        Some(s.len() - 1)
    } else {
        find_sub(s.drop_last(), n)
    }
}

/// The module reached from `m` by following `path` through submodules.
pub open spec fn module_at(m: Module, path: Seq<Seq<char>>) -> Option<Module>
    decreases path.len(),
{
    if path.len() == 0 {
        Some(m)
    } else {
        match find_sub(m.submodules@, path[0]) {
            None => None,
            Some(i) => module_at(m.submodules@[i].1, path.drop_first()),
        }
    }
}

pub open spec fn path_view(p: Seq<String>) -> Seq<Seq<char>> {
    p.map_values(|s: String| s@)
}

impl Module {
    /// The export table of this module, as names and denoted types.
    pub open spec fn spec_exports(&self) -> Seq<(Seq<char>, TypeView)> {
        exports_view(self.exports@)
    }

    /// Builds a module from its items, its loaded submodules and its path,
    /// computing its export table.
    pub fn new(items: Vec<Spanned<Ast>>, submodules: Vec<(String, Module)>, path: ModuleUsePath) -> (r: Module)
        ensures
            r.items == items,
            r.submodules == submodules,
            r.path == path,
            r.spec_exports() == exports_of(items@, items@.len() as int),
            (forall|k: int| 0 <= k < submodules@.len() ==> tree_exports_ok(#[trigger] submodules@[k].1))
                ==> tree_exports_ok(r),
    {
        let exports = load_exports(&items);
        Module { items, submodules, exports, path }
    }

    /// The export table.
    pub fn get_exports(&self) -> (r: &Vec<(String, Type)>)
        ensures
            r == self.exports,
    {
        &self.exports
    }

    /// The type exported under `name`, if any: that of the last function of
    /// that name.
    pub fn get_export(&self, name: &String) -> (r: Option<&Type>)
        ensures
            match r {
                Some(t) => find_export(self.spec_exports(), name@) == Some(t@),
                None => find_export(self.spec_exports(), name@) is None,
            },
    {
        let ghost e = self.spec_exports();
        let mut i = self.exports.len();
        assert(e.subrange(0, i as int) =~= e);
        while i > 0
            invariant
                i <= self.exports@.len(),
                e == self.spec_exports(),
                find_export(e, name@) == find_export(e.subrange(0, i as int), name@),
            decreases i,
        {
            assert(e.subrange(0, i as int).drop_last() =~= e.subrange(0, i - 1));
            if self.exports[i - 1].0 == *name {
                return Some(&self.exports[i - 1].1);
            }
            i = i - 1;
        }
        None
    }

    /// The module at `path` below this one; the empty path names this module.
    pub fn get_module(&self, path: &[String]) -> (r: Option<&Module>)
        ensures
            match r {
                Some(m) => module_at(*self, path_view(path@)) == Some(*m),
                None => module_at(*self, path_view(path@)) is None,
            },
    {
        assert(path_view(path@).subrange(0, path@.len() as int) =~= path_view(path@));
        self.get_module_prefix(path, path.len())
    }

    /// The module at the first `end` names of `path`.
    pub fn get_module_prefix(&self, path: &[String], end: usize) -> (r: Option<&Module>)
        requires
            end <= path@.len(),
        ensures
            match r {
                Some(m) => module_at(*self, path_view(path@).subrange(0, end as int)) == Some(*m),
                None => module_at(*self, path_view(path@).subrange(0, end as int)) is None,
            },
    {
        self.get_module_from(path, 0, end)
    }

    fn get_module_from(&self, path: &[String], k: usize, end: usize) -> (r: Option<&Module>)
        requires
            k <= end <= path@.len(),
        ensures
            match r {
                Some(m) => module_at(*self, path_view(path@).subrange(k as int, end as int)) == Some(*m),
                None => module_at(*self, path_view(path@).subrange(k as int, end as int)) is None,
            },
        decreases end - k,
    {
        let ghost rest = path_view(path@).subrange(k as int, end as int);
        if k == end {
            return Some(self);
        }
        assert(rest.drop_first() =~= path_view(path@).subrange(k + 1, end as int));
        match self.find_submodule(&path[k]) {
            None => None,
            Some(i) => self.submodules[i].1.get_module_from(path, k + 1, end),
        }
    }

    /// The index of the last submodule declared as `name`.
    fn find_submodule(&self, name: &String) -> (r: Option<usize>)
        ensures
            match r {
                Some(i) => find_sub(self.submodules@, name@) == Some(i as int) && i < self.submodules@.len(),
                None => find_sub(self.submodules@, name@) is None,
            },
    {
        let ghost s = self.submodules@;
        let mut i = self.submodules.len();
        assert(s.subrange(0, i as int) =~= s);
        while i > 0
            invariant
                i <= s.len(),
                s == self.submodules@,
                find_sub(s, name@) == find_sub(s.subrange(0, i as int), name@),
            decreases i,
        {
            assert(s.subrange(0, i as int).drop_last() =~= s.subrange(0, i - 1));
            if self.submodules[i - 1].0 == *name {
                return Some(i - 1);
            }
            i = i - 1;
        }
        None
    }
}

/// The export table of `items`.
fn load_exports(items: &Vec<Spanned<Ast>>) -> (r: Vec<(String, Type)>)
    ensures
        exports_view(r@) == exports_of(items@, items@.len() as int),
{
    let mut hm: Vec<(String, Type)> = Vec::new();
    let mut i: usize = 0;
    while i < items.len()
        invariant
            i <= items@.len(),
            exports_view(hm@) == exports_of(items@, i as int),
        decreases items@.len() - i,
    {
        let ghost prev = hm@;
        match &items[i].data {
            Ast::Func(name, ret, params, _) => {
                let t = function_type(params, ret.data);
                hm.push((name.data.clone(), t));
                assert(exports_view(hm@) =~= exports_view(prev).push((name.data@, function_view(params@, ret.data))));
            },
            _ => {},
        }
        i = i + 1;
    }
    hm
}

/// The type of a function with these parameters and return type.
pub fn function_type(params: &Vec<Spanned<Param>>, ret: Typ) -> (r: Type)
    ensures
        r@ == function_view(params@, ret),
{
    let mut p: Vec<Typ> = Vec::new();
    let mut i: usize = 0;
    while i < params.len()
        invariant
            i <= params@.len(),
            p@ == params@.subrange(0, i as int).map_values(|q: Spanned<Param>| q.data.1.data),
        decreases params@.len() - i,
    {
        p.push(params[i].data.1.data);
        assert(p@ =~= params@.subrange(0, i + 1).map_values(|q: Spanned<Param>| q.data.1.data));
        i = i + 1;
    }
    assert(params@.subrange(0, i as int) =~= params@);
    Type::Function(p, ret)
}

/// The export entry that item `a` contributes, if it is a function.
pub open spec fn export_entry(a: Spanned<Ast>) -> Option<(Seq<char>, TypeView)> {
    match a.data {
        Ast::Func(name, ret, params, _) => Some((name.data@, function_view(params@, ret.data))),
        _ => None,
    }
}

/// The number of functions among the first `n` items.
pub open spec fn count_funcs(items: Seq<Spanned<Ast>>, n: int) -> int
    decreases n,
{
    if n <= 0 || n > items.len() {
        0
    } else {
        count_funcs(items, n - 1) + if export_entry(items[n - 1]) is Some { 1int } else { 0int }
    }
}

proof fn lemma_exports_prefix(items: Seq<Spanned<Ast>>, n: int, m: int)
    requires
        0 <= n <= m <= items.len(),
    ensures
        exports_of(items, n) == exports_of(items, m).subrange(0, exports_of(items, n).len() as int),
        exports_of(items, n).len() <= exports_of(items, m).len(),
    decreases m - n,
{
    if n < m {
        lemma_exports_prefix(items, n, m - 1);
        let a = exports_of(items, m - 1);
        let b = exports_of(items, m);
        assert(b.subrange(0, a.len() as int) =~= a);
        assert(b.subrange(0, exports_of(items, n).len() as int) =~= a.subrange(0, exports_of(items, n).len() as int));
    } else {
        assert(exports_of(items, n).subrange(0, exports_of(items, n).len() as int) =~= exports_of(items, n));
    }
}

proof fn lemma_exports_count(items: Seq<Spanned<Ast>>, n: int)
    requires
        0 <= n <= items.len(),
    ensures
        exports_of(items, n).len() == count_funcs(items, n),
    decreases n,
{
    if n > 0 {
        lemma_exports_count(items, n - 1);
    }
}

/// The export table of a module holds exactly one entry per top-level
/// function, in the order of the functions: the `k`-th function gives the
/// `k`-th entry, with its name and its declared parameter and return types;
/// submodule declarations and imports give none.
pub proof fn lemma_exports_one_per_function(items: Seq<Spanned<Ast>>)
    ensures
        exports_of(items, items.len() as int).len() == count_funcs(items, items.len() as int),
        forall|i: int| 0 <= i < items.len() ==> (#[trigger] export_entry(items[i]) matches Some(e)
            ==> exports_of(items, items.len() as int)[count_funcs(items, i)] == e),
{
    let n = items.len() as int;
    lemma_exports_count(items, n);
    assert forall|i: int| 0 <= i < items.len() implies (#[trigger] export_entry(items[i]) matches Some(e)
        ==> exports_of(items, n)[count_funcs(items, i)] == e) by {
        if let Some(e) = export_entry(items[i]) {
            lemma_exports_count(items, i);
            lemma_exports_prefix(items, i + 1, n);
            assert(exports_of(items, i + 1) == exports_of(items, i).push(e));
            let k = count_funcs(items, i);
            assert(exports_of(items, i + 1)[k] == e);
            assert(exports_of(items, n).subrange(0, exports_of(items, i + 1).len() as int)[k] == e);
        }
    }
}

/// The submodules that the first `n` items declare, in order: each
/// declaration's span and name, and the module path of the child, which is
/// `path` followed by the declared name.
pub open spec fn plan_of(items: Seq<Spanned<Ast>>, path: Seq<Seq<char>>, n: int) -> Seq<(Span, Seq<char>, Seq<Seq<char>>)>
    decreases n,
{
    if n <= 0 || n > items.len() {
        Seq::empty()
    } else {
        let prev = plan_of(items, path, n - 1);
        match items[n - 1].data {
            Ast::Mod(name) => prev.push((name.span, name.data@, path.push(name.data@))),
            _ => prev,
        }
    }
}

pub open spec fn plan_view(p: Seq<(Spanned<String>, ModuleUsePath)>) -> Seq<(Span, Seq<char>, Seq<Seq<char>>)> {
    p.map_values(|x: (Spanned<String>, ModuleUsePath)| (x.0.span, x.0.data@, path_view(x.1@)))
}

/// One entry per submodule declaration of `items`, in order: the
/// declaration, and the module path of the child it declares. The root
/// module has the empty path.
pub fn submodule_plan(items: &Vec<Spanned<Ast>>, path: &ModuleUsePath) -> (r: Vec<(Spanned<String>, ModuleUsePath)>)
    ensures
        plan_view(r@) == plan_of(items@, path_view(path@), items@.len() as int),
{
    let mut out: Vec<(Spanned<String>, ModuleUsePath)> = Vec::new();
    let mut i: usize = 0;
    assert(plan_view(out@) =~= Seq::<(Span, Seq<char>, Seq<Seq<char>>)>::empty());
    while i < items.len()
        invariant
            i <= items@.len(),
            plan_view(out@) == plan_of(items@, path_view(path@), i as int),
        decreases items@.len() - i,
    {
        if let Ast::Mod(name) = &items[i].data {
            let ghost prev = plan_view(out@);
            let mut child: ModuleUsePath = Vec::new();
            let mut q: usize = 0;
            while q < path.len()
                invariant
                    q <= path@.len(),
                    path_view(child@) == path_view(path@).subrange(0, q as int),
                decreases path@.len() - q,
            {
                let ghost before = child@;
                child.push(path[q].clone());
                assert(path_view(child@) =~= path_view(before).push(path@[q as int]@));
                assert(path_view(child@) =~= path_view(path@).subrange(0, q + 1));
                q = q + 1;
            }
            assert(path_view(path@).subrange(0, q as int) =~= path_view(path@));
            let ghost base = path_view(child@);
            child.push(name.data.clone());
            assert(path_view(child@) =~= base.push(name.data@));
            let decl = Spanned { span: name.span, data: name.data.clone() };
            out.push((decl, child));
            assert(plan_view(out@) =~= prev.push((name.span, name.data@, path_view(path@).push(name.data@))));
        }
        i = i + 1;
    }
    out
}

/// A child handed to `Module::from_loaded` answers the declaration `d` of
/// the plan: same span and name, and a loaded module carries the planned
/// path.
pub open spec fn child_matches(c: (Spanned<String>, String, Option<Module>), d: (Span, Seq<char>, Seq<Seq<char>>)) -> bool {
    &&& c.0.span == d.0
    &&& c.0.data@ == d.1
    &&& (c.2 matches Some(m) ==> path_view(m.path@) == d.2)
}

/// Every module of the tree rooted at `m` sits at the path it carries
/// relative to `m`: each submodule's path is its parent's path followed by
/// the name it was declared under.
pub open spec fn tree_paths_ok(m: Module) -> bool
    decreases m,
{
    forall|k: int| 0 <= k < m.submodules@.len() ==> {
        &&& path_view((#[trigger] m.submodules@[k]).1.path@) == path_view(m.path@).push(m.submodules@[k].0@)
        &&& tree_paths_ok(m.submodules@[k].1)
    }
}

/// The index of the first child that was not loaded.
pub open spec fn first_missing(c: Seq<(Spanned<String>, String, Option<Module>)>, n: int) -> Option<int>
    decreases n,
{
    if n <= 0 || n > c.len() {
        None
    } else {
        match first_missing(c, n - 1) {
            Some(i) => Some(i),
            None => if c[n - 1].2 is None {
                Some(n - 1)
            } else {
                None
            },
        }
    }
}

impl Module {
    /// Builds a module from its items, its path, and for each submodule
    /// declaration, in order, the declaration, the file looked for, and the
    /// module loaded from it if the file exists. Fails at the first
    /// declaration whose file does not exist, with that declaration's span.
    pub fn from_loaded(
        items: Vec<Spanned<Ast>>,
        path: ModuleUsePath,
        children: Vec<(Spanned<String>, String, Option<Module>)>,
    ) -> (r: Result<Module, LoadError>)
        requires
            children@.len() == plan_of(items@, path_view(path@), items@.len() as int).len(),
            forall|k: int| 0 <= k < children@.len() ==> #[trigger] child_matches(
                children@[k],
                plan_of(items@, path_view(path@), items@.len() as int)[k],
            ),
        ensures
            match first_missing(children@, children@.len() as int) {
                Some(i) => r == Err::<Module, LoadError>(LoadError::ModuleFileNotFound(
                    Spanned { span: children@[i].0.span, data: children@[i].1 },
                )),
                None => r matches Ok(m) && m.items == items && m.path == path
                    && ((forall|k: int| 0 <= k < children@.len() ==> (#[trigger] children@[k].2 matches Some(c) && tree_exports_ok(c)))
                        ==> tree_exports_ok(m))
                    && ((forall|k: int| 0 <= k < children@.len() ==> (#[trigger] children@[k].2 matches Some(c) && tree_paths_ok(c)))
                        ==> tree_paths_ok(m))
                    && m.spec_exports() == exports_of(items@, items@.len() as int)
                    && m.submodules@.len() == children@.len()
                    && forall|k: int| 0 <= k < children@.len() ==> {
                        &&& (#[trigger] m.submodules@[k]).0@ == children@[k].0.data@
                        &&& Some(m.submodules@[k].1) == children@[k].2
                    },
            },
    {
        let ghost cv = children@;
        let n0 = children.len();
        let mut todo = children;
        let mut rev: Vec<(Spanned<String>, String, Option<Module>)> = Vec::new();
        while todo.len() > 0
            invariant
                cv == children@,
                todo@ == cv.subrange(0, todo@.len() as int),
                rev@.len() + todo@.len() == cv.len(),
                forall|j: int| 0 <= j < rev@.len() ==> #[trigger] rev@[j] == cv[cv.len() - 1 - j],
            decreases todo@.len(),
        {
            let c = todo.pop().unwrap();
            assert(todo@ =~= cv.subrange(0, todo@.len() as int));
            rev.push(c);
        }
        let mut submodules: Vec<(String, Module)> = Vec::new();
        let mut i: usize = 0;
        while rev.len() > 0
            invariant
                cv == children@,
                rev@.len() + i == cv.len(),
                cv.len() == n0,
                forall|j: int| 0 <= j < rev@.len() ==> #[trigger] rev@[j] == cv[cv.len() - 1 - j],
                submodules@.len() == i,
                forall|k: int| 0 <= k < i ==> {
                    &&& (#[trigger] submodules@[k]).0@ == cv[k].0.data@
                    &&& Some(submodules@[k].1) == cv[k].2
                },
                first_missing(cv, i as int) is None,
                forall|k: int| 0 <= k < cv.len() ==> #[trigger] child_matches(
                    cv[k],
                    plan_of(items@, path_view(path@), items@.len() as int)[k],
                ),
            decreases rev@.len(),
        {
            let c = rev.pop().unwrap();
            assert(c == cv[i as int]);
            match c.2 {
                None => {
                    proof {
                        assert(first_missing(cv, i + 1) == Some(i as int));
                        lemma_first_missing_stays(cv, i + 1, cv.len() as int);
                    }
                    return Err(LoadError::ModuleFileNotFound(Spanned { span: c.0.span, data: c.1 }));
                },
                Some(m) => {
                    submodules.push((c.0.data, m));
                },
            }
            i = i + 1;
        }
        let ghost plan = plan_of(items@, path_view(path@), items@.len() as int);
        proof {
            lemma_plan_paths(items@, path_view(path@), items@.len() as int);
        }
        let m = Module::new(items, submodules, path);
        proof {
            if forall|k: int| 0 <= k < cv.len() ==> (#[trigger] cv[k].2 matches Some(c) && tree_paths_ok(c)) {
                assert forall|k: int| 0 <= k < m.submodules@.len() implies {
                    &&& path_view((#[trigger] m.submodules@[k]).1.path@) == path_view(m.path@).push(m.submodules@[k].0@)
                    &&& tree_paths_ok(m.submodules@[k].1)
                } by {
                    assert(child_matches(cv[k], plan[k]));
                    assert(cv[k].2 matches Some(c) && tree_paths_ok(c));
                }
            }
        }
        Ok(m)
    }
}

/// Each planned child's path is the parent's path followed by its name.
proof fn lemma_plan_paths(items: Seq<Spanned<Ast>>, path: Seq<Seq<char>>, n: int)
    requires
        0 <= n <= items.len(),
    ensures
        forall|k: int| 0 <= k < plan_of(items, path, n).len() ==> (#[trigger] plan_of(items, path, n)[k]).2 == path.push(plan_of(items, path, n)[k].1),
    decreases n,
{
    if n > 0 {
        lemma_plan_paths(items, path, n - 1);
        let prev = plan_of(items, path, n - 1);
        let cur = plan_of(items, path, n);
        assert forall|k: int| 0 <= k < cur.len() implies (#[trigger] cur[k]).2 == path.push(cur[k].1) by {
            if k < prev.len() {
                assert(cur[k] == prev[k]);
            }
        }
    }
}

proof fn lemma_first_missing_stays(c: Seq<(Spanned<String>, String, Option<Module>)>, n: int, m: int)
    requires
        0 < n <= m <= c.len(),
        first_missing(c, n) is Some,
    ensures
        first_missing(c, m) == first_missing(c, n),
    decreases m - n,
{
    if m > n {
        lemma_first_missing_stays(c, n, m - 1);
    }
}

/// Every module of the tree rooted at `m` has the export table of its own
/// items: one entry per function, in order, with its declared types.
pub open spec fn tree_exports_ok(m: Module) -> bool
    decreases m,
{
    &&& m.spec_exports() == exports_of(m.items@, m.items@.len() as int)
    &&& forall|k: int| 0 <= k < m.submodules@.len() ==> tree_exports_ok(#[trigger] m.submodules@[k].1)
}

/// The index of the last `c` in `f` at or after `from`, if any.
pub open spec fn last_at_or_after(f: Seq<char>, c: char, from: int) -> Option<int>
    decreases f.len(),
{
    if f.len() <= from || f.len() == 0 {
        None
    } else if f.last() == c {
        Some(f.len() - 1)
    } else {
        last_at_or_after(f.drop_last(), c, from)
    }
}

/// The file that holds the submodule `name` declared in `file`: beside the
/// root file for the root module (`is_root`); otherwise inside the
/// directory named like `file` without its extension. The extension of a
/// file name is what follows its last `.`, unless that `.` starts the name.
pub open spec fn child_file_of(file: Seq<char>, is_root: bool, name: Seq<char>) -> Seq<char> {
    let start = match last_at_or_after(file, '/', 0) {
        Some(i) => i + 1,
        None => 0,
    };
    if is_root {
        file.subrange(0, start) + name + ".sus"@
    } else {
        let stem_end = match last_at_or_after(file, '.', start + 1) {
            Some(d) => d,
            None => file.len() as int,
        };
        file.subrange(0, stem_end) + "/"@ + name + ".sus"@
    }
}

/// The index of the last `c` in `f` at or after `from`.
fn last_index(f: &Vec<char>, c: char, from: usize) -> (r: Option<usize>)
    ensures
        match r {
            Some(i) => last_at_or_after(f@, c, from as int) == Some(i as int) && i < f@.len(),
            None => last_at_or_after(f@, c, from as int) is None,
        },
{
    let mut i = f.len();
    assert(f@.subrange(0, i as int) =~= f@);
    while i > from
        invariant
            i <= f@.len(),
            last_at_or_after(f@, c, from as int) == last_at_or_after(f@.subrange(0, i as int), c, from as int),
        decreases i,
    {
        assert(f@.subrange(0, i as int).drop_last() =~= f@.subrange(0, i - 1));
        if f[i - 1] == c {
            return Some(i - 1);
        }
        i = i - 1;
    }
    None
}

/// The file that holds the submodule `name` declared in `file`.
pub fn child_file(file: &String, is_root: bool, name: &String) -> (r: String)
    ensures
        r@ == child_file_of(file@, is_root, name@),
{
    let c = crate::text::chars_of(file);
    let start = match last_index(&c, '/', 0) {
        Some(i) => {
            assert(i < c.len());
            i + 1
        },
        None => 0,
    };
    proof {
        reveal_strlit(".sus");
        reveal_strlit("/");
    }
    if is_root {
        let mut r = String::from_str(file.as_str().substring_char(0, start));
        r.append(name.as_str());
        r.append(".sus");
        r
    } else {
        let stem_end = if start < c.len() {
            match last_index(&c, '.', start + 1) {
                Some(d) => d,
                None => c.len(),
            }
        } else {
            proof {
                assert(last_at_or_after(file@, '.', start + 1) is None);
            }
            c.len()
        };
        let mut r = String::from_str(file.as_str().substring_char(0, stem_end));
        r.append("/");
        r.append(name.as_str());
        r.append(".sus");
        r
    }
}

/// Each line of `ls` indented by one blank.
pub open spec fn indent(ls: Seq<Seq<char>>) -> Seq<Seq<char>> {
    ls.map_values(|l: Seq<char>| seq![' '] + l)
}

/// The lines that list the submodules of `m`: each submodule's name, in
/// declaration order, followed by the lines of its own submodules indented
/// by one blank.
pub open spec fn tree_lines_of(m: Module) -> Seq<Seq<char>>
    decreases m, 1int,
{
    sub_lines_of(m.submodules@, m.submodules@.len() as int)
}

/// The lines of the first `n` submodules in `s`.
pub open spec fn sub_lines_of(s: Seq<(String, Module)>, n: int) -> Seq<Seq<char>>
    decreases s, n,
{
    if n <= 0 || n > s.len() {
        Seq::empty()
    } else {
        sub_lines_of(s, n - 1).push(s[n - 1].0@) + indent(tree_lines_of(s[n - 1].1))
    }
}

impl Module {
    /// The submodule tree below this module, one line per submodule in
    /// declaration order, indented by one blank per level of depth.
    pub fn tree_lines(&self) -> (r: Vec<String>)
        ensures
            names_view_lines(r@) == tree_lines_of(*self),
        decreases self,
    {
        let mut out: Vec<String> = Vec::new();
        let mut i: usize = 0;
        assert(names_view_lines(out@) =~= sub_lines_of(self.submodules@, 0));
        while i < self.submodules.len()
            invariant
                i <= self.submodules@.len(),
                names_view_lines(out@) == sub_lines_of(self.submodules@, i as int),
            decreases self.submodules@.len() - i,
        {
            let ghost before = names_view_lines(out@);
            out.push(self.submodules[i].0.clone());
            assert(decreases_to!(self => self.submodules@[i as int].1));
            let inner = self.submodules[i].1.tree_lines();
            let ghost mid = names_view_lines(out@);
            assert(mid =~= before.push(self.submodules@[i as int].0@));
            let mut q: usize = 0;
            proof {
                reveal_strlit(" ");
            }
            while q < inner.len()
                invariant
                    q <= inner@.len(),
                    names_view_lines(out@) == mid + indent(names_view_lines(inner@).subrange(0, q as int)),
                decreases inner@.len() - q,
            {
                let ghost pre = names_view_lines(out@);
                let mut line = String::from_str(" ");
                proof {
                    reveal_strlit(" ");
                }
                line.append(inner[q].as_str());
                assert(line@ =~= seq![' '] + inner@[q as int]@);
                let ghost lv = line@;
                out.push(line);
                assert(names_view_lines(out@) =~= pre.push(lv));
                assert(indent(names_view_lines(inner@).subrange(0, q + 1)) =~= indent(names_view_lines(inner@).subrange(0, q as int)).push(lv));
                assert(names_view_lines(out@) =~= mid + indent(names_view_lines(inner@).subrange(0, q + 1)));
                q = q + 1;
            }
            assert(names_view_lines(inner@).subrange(0, q as int) =~= names_view_lines(inner@));
            assert(names_view_lines(out@) =~= sub_lines_of(self.submodules@, i + 1));
            i = i + 1;
        }
        out
    }
}

pub open spec fn names_view_lines(v: Seq<String>) -> Seq<Seq<char>> {
    v.map_values(|x: String| x@)
}

} // verus!
