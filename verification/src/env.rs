//! Environments: the bindings of names to values.

use vstd::hash_map::StringHashMap;
use vstd::prelude::*;

use crate::expr::Expr;
use crate::expr::Sexp;

verus! {

/// What names are bound to.
pub type Bindings = Map<Seq<char>, Sexp>;

/// A frame of bindings, and the frame around it where there is one.
pub struct EnvInner {
    parent: Option<Box<EnvInner>>,
    slots: StringHashMap<Expr>,
}

impl EnvInner {
    /// The bindings of this frame alone.
    spec fn own(&self) -> Bindings {
        self.slots@.map_values(|e: Expr| e@)
    }

    /// The bindings seen from this frame: its own, and those of the frames
    /// around it that it does not shadow.
    spec fn bindings(&self) -> Bindings
        decreases self,
    {
        match self.parent {
            None => self.own(),
            Some(parent) => parent.bindings().union_prefer_right(self.own()),
        }
    }

    /// An empty frame inside `parent`.
    pub fn new(parent: Option<Box<EnvInner>>) -> (frame: EnvInner)
        ensures
            frame@ == match parent {
                None => Map::empty(),
                Some(p) => p@,
            },
    {
        let frame = EnvInner { parent, slots: StringHashMap::new() };
        proof {
            assert(frame.own() =~= Map::empty());
            if frame.parent is Some {
                let p = frame.parent->Some_0;
                assert(p.bindings().union_prefer_right(frame.own()) =~= p.bindings());
            }
        }
        frame
    }

    /// The value bound to `name`: that of the innermost frame that binds it,
    /// or `None` where no frame does.
    pub fn get(&self, name: &str) -> (value: Option<Expr>)
        ensures
            match value {
                Some(e) => self@.contains_key(name@) && self@[name@] == e@,
                None => !self@.contains_key(name@),
            },
        decreases self,
    {
        match self.slots.get(name) {
            Some(e) => Some(e.clone()),
            None => match &self.parent {
                Some(parent) => parent.get(name),
                None => None,
            },
        }
    }

    /// Binds `name` to `value` in this frame, in place of what it was bound
    /// to there.
    pub fn set(&mut self, name: &str, value: Expr)
        ensures
            final(self)@ == old(self)@.insert(name@, value@),
    {
        self.slots.insert(name.to_owned(), value);
        proof {
            assert(self.own() =~= old(self).own().insert(name@, value@));
            if self.parent is Some {
                let outer = self.parent->Some_0.bindings();
                assert(outer.union_prefer_right(self.own()) =~= outer.union_prefer_right(
                    old(self).own(),
                ).insert(name@, value@));
            }
        }
    }
}

impl View for EnvInner {
    type V = Bindings;

    closed spec fn view(&self) -> Bindings {
        self.bindings()
    }
}

/// An environment.
pub struct Env {
    e: Box<EnvInner>,
}

impl View for Env {
    type V = Bindings;

    closed spec fn view(&self) -> Bindings {
        self.e@
    }
}

impl Env {
    /// An environment without bindings of its own, inside `parent` where one
    /// is given: it sees the bindings of `parent`, and what is bound in it
    /// shadows them.
    pub fn new(parent: Option<Env>) -> (env: Env)
        ensures
            env@ == match parent {
                None => Map::empty(),
                Some(p) => p@,
            },
    {
        let parent = match parent {
            Some(p) => Some(p.e),
            None => None,
        };
        Env { e: Box::new(EnvInner::new(parent)) }
    }

    /// The value bound to `name`, or `None` where there is none. The
    /// environment stays as it is.
    pub fn get(&self, name: &str) -> (value: Option<Expr>)
        ensures
            match value {
                Some(e) => self@.contains_key(name@) && self@[name@] == e@,
                None => !self@.contains_key(name@),
            },
    {
        self.e.get(name)
    }

    /// Binds `name` to `value`, in place of what it was bound to.
    pub fn set(&mut self, name: &str, value: Expr)
        ensures
            final(self)@ == old(self)@.insert(name@, value@),
    {
        self.e.set(name, value);
    }
}

} // verus!
