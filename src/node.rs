use vstd::prelude::*;

verus! {

/// One summary node: the scanned root (with `children`) or one of its
/// immediate subdirectories (without).
#[derive(Debug, PartialEq, Eq)]
pub struct FileNode {
    pub name: String,
    pub path: String,
    pub size: u64,
    pub is_dir: bool,
    pub children: Option<Vec<FileNode>>,
    pub last_modified: u64,
    pub file_count: u64,
}

/// The mathematical value of a `FileNode`: strings as character sequences,
/// children as a sequence of models.
pub ghost struct NodeModel {
    pub name: Seq<char>,
    pub path: Seq<char>,
    pub size: u64,
    pub is_dir: bool,
    pub children: Option<Seq<NodeModel>>,
    pub last_modified: u64,
    pub file_count: u64,
}

pub open spec fn node_model(n: FileNode) -> NodeModel
    decreases n,
{
    NodeModel {
        name: n.name@,
        path: n.path@,
        size: n.size,
        is_dir: n.is_dir,
        children: match n.children {
            Some(v) => Some(
                Seq::new(
                    v.len() as nat,
                    |i: int|
                        if 0 <= i < v.len() {
                            node_model(v[i])
                        } else {
                            arbitrary()
                        },
                ),
            ),
            None => None,
        },
        last_modified: n.last_modified,
        file_count: n.file_count,
    }
}

impl FileNode {
    pub open spec fn model(self) -> NodeModel {
        node_model(self)
    }

    /// A deep copy: the same value, sharing nothing with `self`.
    pub fn duplicate(&self) -> (r: FileNode)
        ensures
            r.model() == self.model(),
        decreases self,
    {
        match &self.children {
            None => FileNode {
                name: self.name.clone(),
                path: self.path.clone(),
                size: self.size,
                is_dir: self.is_dir,
                children: None,
                last_modified: self.last_modified,
                file_count: self.file_count,
            },
            Some(v) => {
                let mut out: Vec<FileNode> = Vec::new();
                let mut i: usize = 0;
                while i < v.len()
                    invariant
                        self.children == Some(*v),
                        i <= v.len(),
                        out@.len() == i,
                        forall|k: int| 0 <= k < i ==> #[trigger] node_model(out@[k]) == node_model(v@[k]),
                    decreases v.len() - i,
                {
                    proof {
                        vstd::std_specs::vec::axiom_vec_index_decreases(*v, i as int);
                        assert(decreases_to!(*self => self.children));
                        assert(decreases_to!(self.children => self.children->Some_0));
                        assert(decreases_to!(*self => v[i as int]));
                    }
                    let c = v[i].duplicate();
                    out.push(c);
                    i = i + 1;
                }
                let r = FileNode {
                    name: self.name.clone(),
                    path: self.path.clone(),
                    size: self.size,
                    is_dir: self.is_dir,
                    children: Some(out),
                    last_modified: self.last_modified,
                    file_count: self.file_count,
                };
                assert(node_model(r).children.unwrap() =~= node_model(*self).children.unwrap()) by {
                    let a = node_model(r).children.unwrap();
                    let b = node_model(*self).children.unwrap();
                    assert(a.len() == b.len());
                    assert forall|k: int| 0 <= k < a.len() implies a[k] == b[k] by {
                        assert(a[k] == node_model(out@[k]));
                    }
                }
                r
            },
        }
    }
}

} // verus!
