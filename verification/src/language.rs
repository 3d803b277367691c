//! What a language tells about its node types.
use crate::node_type::{NodeType, NodeTypeInfo};
use vstd::prelude::*;
use vstd::string::StringExecFns;

verus! {

/// The node types of a language with their names. The error type and the
/// white space type belong to every language.
#[derive(Clone, Debug)]
pub struct Language {
    types: Vec<NodeType>,
    infos: Vec<NodeTypeInfo>,
}

impl View for Language {
    type V = Map<NodeType, Seq<char>>;

    /// The name of each node type that the language knows.
    closed spec fn view(&self) -> Map<NodeType, Seq<char>> {
        Map::new(
            |ty: NodeType| self.types@.contains(ty),
            |ty: NodeType| self.infos@[self.types@.index_of(ty)].name@,
        )
    }
}

impl Language {
    /// The language holds one name for each type, and no type twice.
    pub closed spec fn wf(&self) -> bool {
        &&& self.types@.len() == self.infos@.len()
        &&& self.types@.no_duplicates()
    }

    /// A language that knows the two node types of every language, under
    /// the names `ERROR` and `WHITESPACE`.
    pub fn new() -> (r: Language)
        ensures
            r.wf(),
            r@ == map![
                NodeType::error() => "ERROR"@,
                NodeType::whitespace() => "WHITESPACE"@,
            ],
    {
        let mut types: Vec<NodeType> = Vec::new();
        let mut infos: Vec<NodeTypeInfo> = Vec::new();
        types.push(NodeType::error());
        infos.push(NodeTypeInfo { name: String::from_str("ERROR") });
        types.push(NodeType::whitespace());
        infos.push(NodeTypeInfo { name: String::from_str("WHITESPACE") });
        let r = Language { types, infos };
        proof {
            let want = map![
                NodeType::error() => "ERROR"@,
                NodeType::whitespace() => "WHITESPACE"@,
            ];
            assert(r.types@ =~= seq![NodeType::error(), NodeType::whitespace()]);
            assert(r.types@[0] == NodeType::error());
            assert(r.types@[1] == NodeType::whitespace());
            assert forall|ty: NodeType| r@.dom().contains(ty) == want.dom().contains(ty) by {
                if r.types@.contains(ty) {
                    let i = choose|i: int| 0 <= i < r.types@.len() && r.types@[i] == ty;
                    assert(i == 0 || i == 1);
                }
            }
            r.types@.index_of_first_ensures(NodeType::error());
            r.types@.index_of_first_ensures(NodeType::whitespace());
            assert(r.types@.index_of(NodeType::error()) == 0);
            assert(r.types@.index_of(NodeType::whitespace()) == 1);
            assert(r@ =~= want);
        }
        r
    }

    /// The place of `ty` in the list of types, if the language knows it.
    fn position(&self, ty: NodeType) -> (r: Option<usize>)
        requires
            self.wf(),
        ensures
            match r {
                Some(i) => i < self.types@.len() && self.types@[i as int] == ty && self.types@.index_of(
                    ty,
                ) == i,
                None => !self.types@.contains(ty),
            },
    {
        let mut i: usize = 0;
        while i < self.types.len()
            invariant
                self.wf(),
                i <= self.types@.len(),
                forall|j: int| 0 <= j < i ==> self.types@[j] != ty,
            decreases self.types.len() - i,
        {
            if self.types[i] == ty {
                proof {
                    let k = self.types@.index_of(ty);
                    assert(self.types@.contains(ty));
                    assert(0 <= k < self.types@.len() && self.types@[k] == ty);
                    assert(k == i);
                }
                return Some(i);
            }
            i += 1;
        }
        None
    }

    /// Whether the language has a name for `ty`.
    pub fn knows(&self, ty: NodeType) -> (r: bool)
        requires
            self.wf(),
        ensures
            r == self@.dom().contains(ty),
    {
        self.position(ty).is_some()
    }

    /// Gives `ty` the name `name`, unless the language already has a name
    /// for it. Says whether it did.
    #[verifier::rlimit(30)]
    pub fn declare(&mut self, ty: NodeType, name: &str) -> (r: bool)
        requires
            old(self).wf(),
        ensures
            final(self).wf(),
            r == !old(self)@.dom().contains(ty),
            final(self)@ == (if r {
                old(self)@.insert(ty, name@)
            } else {
                old(self)@
            }),
    {
        if self.position(ty).is_some() {
            return false;
        }
        self.types.push(ty);
        self.infos.push(NodeTypeInfo { name: String::from_str(name) });
        proof {
            let before = old(self).types@;
            let after = self.types@;
            let want = old(self)@.insert(ty, name@);
            assert forall|i: int, j: int| 0 <= i < after.len() && 0 <= j < after.len() && i != j implies after[i]
                != after[j] by {
                if i < before.len() && j < before.len() {
                    assert(before[i] != before[j]);
                } else if i < before.len() {
                    assert(before.contains(before[i]));
                } else {
                    assert(before.contains(before[j]));
                }
            }
            assert forall|t: NodeType| self@.dom().contains(t) == want.dom().contains(t) by {
                if after.contains(t) {
                    let i = choose|i: int| 0 <= i < after.len() && after[i] == t;
                    if i < before.len() {
                        assert(before[i] == t);
                        assert(before.contains(t));
                    }
                }
                if before.contains(t) {
                    let i = choose|i: int| 0 <= i < before.len() && before[i] == t;
                    assert(after[i] == t);
                }
                if t == ty {
                    assert(after[before.len() as int] == ty);
                }
            }
            assert forall|t: NodeType| self@.dom().contains(t) implies self@[t] == want[t] by {
                let k = after.index_of(t);
                assert(after.contains(t));
                assert(0 <= k < after.len() && after[k] == t);
                if t == ty {
                    assert(after[before.len() as int] == ty);
                    assert(k == before.len());
                } else {
                    assert(k < before.len());
                    assert(before[k] == t);
                    assert(before.contains(t));
                    let k0 = before.index_of(t);
                    assert(0 <= k0 < before.len() && before[k0] == t);
                    assert(after[k0] == t);
                    assert(k0 == k);
                }
            }
            assert(self@ =~= want);
        }
        true
    }

    /// What the language tells about `ty`, a type that it knows.
    pub fn node_type_info(&self, ty: NodeType) -> (r: NodeTypeInfo)
        requires
            self.wf(),
            self@.dom().contains(ty),
        ensures
            r.name@ == self@[ty],
    {
        match self.position(ty) {
            Some(i) => NodeTypeInfo { name: self.infos[i].name.clone() },
            None => NodeTypeInfo { name: String::new() },
        }
    }
}

} // verus!
