//! Lexical scopes with shadowing, as a stack of frames addressed by index.
//!
//! All bindings live in one list, oldest first; each frame records where its
//! bindings begin. A lookup walks the list from the newest binding back, so it
//! sees the current frame first, then each enclosing frame, and within a frame
//! the latest `add` of a name hides the earlier ones.
use vstd::prelude::*;

verus! {

/// The name a binding is made under, and its value.
pub type Binding<T> = (Seq<char>, T);

/// The value bound to `name` nearest to the end of `b`, if any.
pub open spec fn lookup<T>(b: Seq<Binding<T>>, name: Seq<char>) -> Option<T>
    decreases b.len(),
{
    if b.len() == 0 {
        None
    } else if b.last().0 == name {
        Some(b.last().1)
    } else {
        lookup(b.drop_last(), name)
    }
}

/// One nested frame: the index of the first binding that belongs to it.
#[derive(Debug, Clone, Copy, PartialEq, Eq, Structural)]
pub struct ChildScope {
    pub start: usize,
}

impl ChildScope {
    pub fn new(start: usize) -> (r: ChildScope)
        ensures
            r.start == start,
    {
        ChildScope { start }
    }
}

/// The outermost frame together with the stack of the frames nested in it.
#[derive(Debug)]
pub struct GlobalScope<T> {
    bindings: Vec<(String, T)>,
    frames: Vec<ChildScope>,
}

impl<T> GlobalScope<T> {
    /// The bindings, oldest first, names as character sequences.
    pub closed spec fn spec_bindings(&self) -> Seq<Binding<T>> {
        self.bindings@.map_values(|b: (String, T)| (b.0@, b.1))
    }

    /// Where each open nested frame begins, outermost first.
    pub closed spec fn spec_frames(&self) -> Seq<nat> {
        self.frames@.map_values(|f: ChildScope| f.start as nat)
    }

    /// The frames begin in order, and none begins after the last binding.
    pub open spec fn wf(&self) -> bool {
        &&& forall|i: int, j: int|
            0 <= i <= j < self.spec_frames().len() ==> self.spec_frames()[i]
                <= self.spec_frames()[j]
        &&& forall|i: int|
            0 <= i < self.spec_frames().len() ==> self.spec_frames()[i]
                <= self.spec_bindings().len()
    }

    /// An empty scope with no nested frame open.
    pub fn new() -> (r: Self)
        ensures
            r.wf(),
            r.spec_bindings() == Seq::<Binding<T>>::empty(),
            r.spec_frames() == Seq::<nat>::empty(),
    {
        let r = GlobalScope { bindings: Vec::new(), frames: Vec::new() };
        proof {
            assert(r.spec_bindings() =~= Seq::<Binding<T>>::empty());
            assert(r.spec_frames() =~= Seq::<nat>::empty());
        }
        r
    }
}

/// Lexical name resolution with shadowing.
pub trait Scope<T>: Sized {
    /// The bindings, oldest first.
    spec fn bindings(&self) -> Seq<Binding<T>>;

    /// Where each open nested frame begins, outermost first.
    spec fn frames(&self) -> Seq<nat>;

    /// The frames are consistent with the bindings.
    spec fn consistent(&self) -> bool;

    /// Binds `n` to `t` in the current frame, hiding any earlier binding of `n`.
    fn add(&mut self, n: String, t: T)
        requires
            old(self).consistent(),
        ensures
            final(self).consistent(),
            final(self).bindings() == old(self).bindings().push((n@, t)),
            final(self).frames() == old(self).frames();

    /// The value of the nearest binding of `n`: the current frame is searched
    /// first, then each enclosing one.
    fn get(&self, n: &String) -> (r: Option<&T>)
        ensures
            match r {
                Some(v) => lookup(self.bindings(), n@) == Some(*v),
                None => lookup(self.bindings(), n@) is None,
            };

    /// Opens a nested frame.
    fn push(&mut self) -> (r: ChildScope)
        requires
            old(self).consistent(),
        ensures
            final(self).consistent(),
            r.start == old(self).bindings().len(),
            final(self).bindings() == old(self).bindings(),
            final(self).frames() == old(self).frames().push(old(self).bindings().len());

    /// Closes the innermost frame, dropping every binding made in it.
    fn pop(&mut self)
        requires
            old(self).consistent(),
            old(self).frames().len() > 0,
        ensures
            final(self).consistent(),
            final(self).bindings() == old(self).bindings().subrange(0, old(self).frames().last() as int),
            final(self).frames() == old(self).frames().drop_last();
}

impl<T> Scope<T> for GlobalScope<T> {
    open spec fn bindings(&self) -> Seq<Binding<T>> {
        self.spec_bindings()
    }

    open spec fn frames(&self) -> Seq<nat> {
        self.spec_frames()
    }

    open spec fn consistent(&self) -> bool {
        self.wf()
    }

    /// Binds `n` to `t` in the current frame, hiding any earlier binding of `n`.
    fn add(&mut self, n: String, t: T)
    {
        let ghost nv = n@;
        self.bindings.push((n, t));
        proof {
            assert(self.spec_bindings() =~= old(self).spec_bindings().push((nv, t)));
            assert(self.spec_frames() =~= old(self).spec_frames());
        }
    }

    /// The value of the nearest binding of `n`.
    fn get(&self, n: &String) -> (r: Option<&T>)
    {
        let mut i = self.bindings.len();
        assert(self.spec_bindings().subrange(0, i as int) =~= self.spec_bindings());
        while i > 0
            invariant
                i <= self.bindings@.len(),
                lookup(self.spec_bindings(), n@) == lookup(
                    self.spec_bindings().subrange(0, i as int),
                    n@,
                ),
            decreases i,
        {
            let ghost pre = self.spec_bindings().subrange(0, i as int);
            assert(pre.drop_last() =~= self.spec_bindings().subrange(0, i - 1));
            if self.bindings[i - 1].0 == *n {
                return Some(&self.bindings[i - 1].1);
            }
            i = i - 1;
        }
        None
    }

    /// Opens a nested frame.
    fn push(&mut self) -> (r: ChildScope)
    {
        let c = ChildScope::new(self.bindings.len());
        self.frames.push(c);
        proof {
            assert(self.spec_frames() =~= old(self).spec_frames().push(
                old(self).spec_bindings().len(),
            ));
        }
        c
    }

    /// Closes the innermost frame, dropping every binding made in it.
    fn pop(&mut self)
    {
        let c = self.frames.pop().unwrap();
        self.bindings.truncate(c.start);
        proof {
            assert(self.spec_bindings() =~= old(self).spec_bindings().subrange(
                0,
                old(self).spec_frames().last() as int,
            ));
            assert(self.spec_frames() =~= old(self).spec_frames().drop_last());
        }
    }
}

} // verus!
