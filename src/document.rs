//! The document model: an arena of nodes addressed by index.
use vstd::prelude::*;

verus! {

/// One node of the arena. Elements carry a tag; text nodes carry none.
#[derive(Debug, Clone)]
pub struct EngineNode {
    pub id: usize,
    pub parent: Option<usize>,
    pub tag: Option<String>,
    pub text: String,
    /// Attribute names and values, names unique.
    pub attrs: Vec<(String, String)>,
    /// Child indices in document order.
    pub children: Vec<usize>,
}

/// The whole arena and the index of its root.
#[derive(Debug, Clone)]
pub struct EngineDocument {
    pub nodes: Vec<EngineNode>,
    pub root_id: usize,
}

/// The value of the first attribute of `n` named `name`.
pub open spec fn attr_of(n: EngineNode, name: Seq<char>) -> Option<Seq<char>>
    decreases n.attrs@.len(),
{
    attr_in(n.attrs@, name)
}

pub open spec fn attr_in(attrs: Seq<(String, String)>, name: Seq<char>) -> Option<Seq<char>>
    decreases attrs.len(),
{
    if attrs.len() == 0 {
        None
    } else if attrs[0].0@ == name {
        Some(attrs[0].1@)
    } else {
        attr_in(attrs.drop_first(), name)
    }
}

/// The tag of a node, empty for text nodes.
pub open spec fn tag_of(n: EngineNode) -> Seq<char> {
    match n.tag {
        Some(t) => t@,
        None => Seq::empty(),
    }
}

impl EngineNode {
    pub open spec fn attrs_unique(&self) -> bool {
        forall|i: int, j: int|
            0 <= i < j < self.attrs@.len() ==> self.attrs@[i].0@ != self.attrs@[j].0@
    }
}

impl EngineDocument {
    /// Well-formed arena: the root is a node, every node sits at its own index,
    /// parents come before their children (so the tree has no cycle), and
    /// attribute names are unique per node.
    pub open spec fn wf(&self) -> bool {
        &&& self.root_id < self.nodes@.len()
        &&& forall|i: int|
            #![trigger self.nodes@[i]]
            0 <= i < self.nodes@.len() ==> {
                &&& self.nodes@[i].id == i
                &&& self.nodes@[i].attrs_unique()
                &&& (self.nodes@[i].parent matches Some(p) ==> p < i)
                &&& forall|k: int|
                    0 <= k < self.nodes@[i].children@.len() ==> i
                        < #[trigger] self.nodes@[i].children@[k] < self.nodes@.len()
            }
    }

    /// The parent of node `i`, as an index, or -1.
    pub open spec fn parent_index(&self, i: int) -> int {
        if 0 <= i < self.nodes@.len() {
            match self.nodes@[i].parent {
                Some(p) => if p < i { p as int } else { -1 },
                None => -1,
            }
        } else {
            -1
        }
    }
}

/// The value of attribute `name` of `n`, if any.
pub fn get_attr<'a>(n: &'a EngineNode, name: &String) -> (r: Option<&'a String>)
    ensures
        match r {
            Some(v) => attr_of(*n, name@) == Some(v@),
            None => attr_of(*n, name@) is None,
        },
{
    let mut i: usize = 0;
    assert(n.attrs@.skip(0) =~= n.attrs@);
    while i < n.attrs.len()
        invariant
            i <= n.attrs@.len(),
            attr_of(*n, name@) == attr_in(n.attrs@.skip(i as int), name@),
        decreases n.attrs@.len() - i,
    {
        assert(n.attrs@.skip(i as int).drop_first() =~= n.attrs@.skip(i as int + 1));
        if n.attrs[i].0 == *name {
            return Some(&n.attrs[i].1);
        }
        i += 1;
    }
    None
}


fn attrs_unique_exec(n: &EngineNode) -> (r: bool)
    ensures
        r == n.attrs_unique(),
{
    let len = n.attrs.len();
    let mut i: usize = 0;
    while i < len
        invariant
            len == n.attrs@.len(),
            i <= len,
            forall|a: int, b: int| 0 <= a < b < len && a < i ==> n.attrs@[a].0@ != n.attrs@[b].0@,
        decreases len - i,
    {
        let mut j: usize = i + 1;
        while j < len
            invariant
                len == n.attrs@.len(),
                i < len,
                i < j <= len,
                forall|a: int, b: int| 0 <= a < b < len && a < i ==> n.attrs@[a].0@ != n.attrs@[b].0@,
                forall|b: int| i < b < j ==> n.attrs@[i as int].0@ != n.attrs@[b].0@,
            decreases len - j,
        {
            if n.attrs[i].0 == n.attrs[j].0 {
                return false;
            }
            j += 1;
        }
        i += 1;
    }
    true
}

impl EngineDocument {
    /// Whether the arena is well formed (see `wf`).
    pub fn is_well_formed(&self) -> (r: bool)
        ensures
            r == self.wf(),
    {
        let len = self.nodes.len();
        if self.root_id >= len {
            return false;
        }
        let mut i: usize = 0;
        while i < len
            invariant
                len == self.nodes@.len(),
                self.root_id < len,
                i <= len,
                forall|m: int|
                    #![trigger self.nodes@[m]]
                    0 <= m < i ==> {
                        &&& self.nodes@[m].id == m
                        &&& self.nodes@[m].attrs_unique()
                        &&& (self.nodes@[m].parent matches Some(p) ==> p < m)
                        &&& forall|k: int|
                            0 <= k < self.nodes@[m].children@.len() ==> m
                                < #[trigger] self.nodes@[m].children@[k] < len
                    },
            decreases len - i,
        {
            let n = &self.nodes[i];
            if n.id != i || !attrs_unique_exec(n) {
                return false;
            }
            match n.parent {
                Some(p) => {
                    if p >= i {
                        return false;
                    }
                },
                None => {},
            }
            let mut k: usize = 0;
            while k < n.children.len()
                invariant
                    len == self.nodes@.len(),
                    i < len,
                    *n == self.nodes@[i as int],
                    k <= n.children@.len(),
                    forall|k2: int| 0 <= k2 < k ==> i < #[trigger] n.children@[k2] < len,
                decreases n.children@.len() - k,
            {
                let c = n.children[k];
                if c <= i || c >= len {
                    return false;
                }
                k += 1;
            }
            i += 1;
        }
        true
    }
}

} // verus!
