//! Paths that name a rendered node by its position among its siblings at every level.

use vstd::prelude::*;
use vstd::string::StringExecFns;
use crate::util::decimal::{decimal, to_decimal};

verus! {

/// The path of a node: the index of its ancestor at each level, then its own.
#[derive(Clone, Hash, PartialEq, Eq, Debug)]
pub struct Identifier(Vec<usize>);

impl View for Identifier {
    type V = Seq<usize>;

    closed spec fn view(&self) -> Seq<usize> {
        self.0@
    }
}

/// The path one level below `path`, at `index`.
pub open spec fn child_path(path: Seq<usize>, index: usize) -> Seq<usize> {
    path.push(index)
}

/// The path of the node next to `path` at the same level; the empty path has no sibling and
/// stays as it is.
pub open spec fn sibling_path(path: Seq<usize>) -> Seq<usize> {
    if path.len() == 0 {
        path
    } else {
        path.update(path.len() - 1, (path.last() + 1) as usize)
    }
}

/// The path written as its indices in decimal notation, with a dot between them.
pub open spec fn dotted(path: Seq<usize>) -> Seq<char>
    decreases path.len(),
{
    if path.len() == 0 {
        Seq::empty()
    } else if path.len() == 1 {
        decimal(path[0] as nat)
    } else {
        dotted(path.drop_last()) + seq!['.'] + decimal(path.last() as nat)
    }
}

fn copy_of(path: &Vec<usize>) -> (copy: Vec<usize>)
    ensures
        copy@ == path@,
{
    let mut copy: Vec<usize> = Vec::new();
    let mut i: usize = 0;
    while i < path.len()
        invariant
            i <= path@.len(),
            copy@ == path@.subrange(0, i as int),
        decreases path@.len() - i,
    {
        copy.push(path[i]);
        assert(copy@ =~= path@.subrange(0, i + 1));
        i += 1;
    }
    assert(copy@ =~= path@);
    copy
}

impl Identifier {
    /// The empty path, which names the root.
    pub fn new() -> (id: Self)
        ensures
            id@ == Seq::<usize>::empty(),
    {
        Identifier(Vec::new())
    }

    /// The path with the given indices.
    pub fn from(value: Vec<usize>) -> (id: Self)
        ensures
            id@ == value@,
    {
        Identifier(value)
    }

    /// The indices of the path, outermost first.
    pub fn as_ref(&self) -> (path: &[usize])
        ensures
            path@ == self@,
    {
        self.0.as_slice()
    }

    /// The path of the next node at the same level.
    pub fn sibling(&self) -> (id: Self)
        requires
            self@.len() > 0 ==> self@.last() < usize::MAX,
        ensures
            id@ == sibling_path(self@),
    {
        let mut path = copy_of(&self.0);
        let n = path.len();
        if n > 0 {
            let last = path[n - 1];
            path[n - 1] = last + 1;
        }
        Identifier(path)
    }

    /// The path of child number `index` of this node.
    pub fn child(&self, index: usize) -> (id: Self)
        ensures
            id@ == child_path(self@, index),
    {
        let mut path = copy_of(&self.0);
        path.push(index);
        Identifier(path)
    }

    /// The number of levels of the path.
    pub fn len(&self) -> (n: usize)
        ensures
            n == self@.len(),
    {
        self.0.len()
    }

    /// The indices of the path, outermost first.
    pub fn into_iter(self) -> (path: Vec<usize>)
        ensures
            path@ == self@,
    {
        self.0
    }

    /// The path written out: its indices, with a dot between them.
    pub fn to_string(&self) -> (text: String)
        ensures
            text@ == dotted(self@),
    {
        let mut text = String::new();
        let mut i: usize = 0;
        while i < self.0.len()
            invariant
                i <= self.0@.len(),
                text@ == dotted(self.0@.subrange(0, i as int)),
            decreases self.0@.len() - i,
        {
            let ghost before = self.0@.subrange(0, i as int);
            let ghost now = self.0@.subrange(0, i + 1);
            assert(now.drop_last() =~= before);
            assert(now.last() == self.0@[i as int]);
            if i > 0 {
                proof {
                    reveal_strlit(".");
                    assert("."@ =~= seq!['.']);
                }
                text.append(".");
            }
            text.append(to_decimal(self.0[i]).as_str());
            assert(text@ =~= dotted(now)) by {
                if i == 0 {
                    assert(before =~= Seq::<usize>::empty());
                    assert(dotted(before) =~= Seq::<char>::empty());
                }
            }
            i += 1;
        }
        assert(self.0@.subrange(0, self.0@.len() as int) =~= self.0@);
        text
    }
}

} // verus!
