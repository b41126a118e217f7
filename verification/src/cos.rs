//! The value tree that the COS object syntax denotes.

use vstd::prelude::*;

verus! {

/// One COS value, as the program holds it.
#[derive(Debug)]
pub enum DictNode {
    /// A mapping from names, without their leading `/`, to values.
    Dict(Dict),
    /// A sequence of values, in the order of the source.
    Array(Vec<DictNode>),
    /// The number and the generation of another object.  Nothing is resolved.
    ObjectReference(i64, i64),
    Bool(bool),
    Int(i64),
    /// A real number, kept as its decimal literal: optional `-`, digits, `.`,
    /// optional digits.
    Float(String),
    /// A name with its leading `/`, or a string literal with its delimiters.
    Str(String),
}

/// One entry of a dictionary.
#[derive(Debug)]
pub struct Entry {
    pub key: String,
    pub value: DictNode,
}

/// The entries of a dictionary, in the order in which they were inserted.  A
/// later entry for a key replaces an earlier one.
#[derive(Debug)]
pub struct Dict {
    pub entries: Vec<Entry>,
}

/// One COS value, as mathematics holds it.
pub ghost enum Cos {
    Dict(Map<Seq<char>, Cos>),
    Array(Seq<Cos>),
    ObjectReference(int, int),
    Bool(bool),
    Int(int),
    Float(Seq<char>),
    Str(Seq<char>),
}

/// The mapping that a sequence of entries denotes: each key maps to the value
/// of the last entry that has it.
pub open spec fn entries_map(entries: Seq<Entry>) -> Map<Seq<char>, Cos>
    decreases entries,
{
    if entries.len() == 0 {
        Map::empty()
    } else {
        entries_map(entries.drop_last()).insert(entries.last().key@, entries.last().value@)
    }
}

/// The values of a sequence of nodes.
pub open spec fn nodes_view(nodes: Seq<DictNode>) -> Seq<Cos>
    decreases nodes,
{
    if nodes.len() == 0 {
        Seq::empty()
    } else {
        nodes_view(nodes.drop_last()).push(nodes.last()@)
    }
}

impl View for DictNode {
    type V = Cos;

    open spec fn view(&self) -> Cos
        decreases self,
    {
        match self {
            DictNode::Dict(d) => Cos::Dict(d@),
            DictNode::Array(v) => Cos::Array(nodes_view(v@)),
            DictNode::ObjectReference(n, g) => Cos::ObjectReference(*n as int, *g as int),
            DictNode::Bool(b) => Cos::Bool(*b),
            DictNode::Int(i) => Cos::Int(*i as int),
            DictNode::Float(t) => Cos::Float(t@),
            DictNode::Str(t) => Cos::Str(t@),
        }
    }
}

impl View for Dict {
    type V = Map<Seq<char>, Cos>;

    open spec fn view(&self) -> Map<Seq<char>, Cos>
        decreases self,
    {
        entries_map(self.entries@)
    }
}

/// The value of the `i`-th node of a sequence is the `i`-th of its values.
pub proof fn lemma_nodes_view(nodes: Seq<DictNode>)
    ensures
        nodes_view(nodes).len() == nodes.len(),
        forall|i: int| 0 <= i < nodes.len() ==> (#[trigger] nodes_view(nodes)[i]) == nodes[i]@,
    decreases nodes.len(),
{
    if nodes.len() > 0 {
        lemma_nodes_view(nodes.drop_last());
        assert(nodes_view(nodes) == nodes_view(nodes.drop_last()).push(nodes.last()@));
    }
}

/// Whether no entry behind the `i`-th has its key.
spec fn is_last(entries: Seq<Entry>, i: int) -> bool {
    forall|j: int| i < j < entries.len() ==> (#[trigger] entries[j]).key@ != entries[i].key@
}

/// The mapping gives a key the value of the last entry that has it.
proof fn lemma_last_entry(entries: Seq<Entry>, i: int)
    requires
        0 <= i < entries.len(),
        is_last(entries, i),
    ensures
        entries_map(entries).contains_key(entries[i].key@),
        entries_map(entries)[entries[i].key@] == entries[i].value@,
    decreases entries.len(),
{
    assert(entries_map(entries) == entries_map(entries.drop_last()).insert(
        entries.last().key@,
        entries.last().value@,
    ));
    if i < entries.len() - 1 {
        let front = entries.drop_last();
        assert(entries[entries.len() - 1].key@ != entries[i].key@);
        assert forall|j: int| i < j < front.len() implies (#[trigger] front[j]).key@
            != front[i].key@ by {
            assert(entries[j].key@ != entries[i].key@);
        }
        lemma_last_entry(front, i);
    }
}

/// Every key of the mapping is the key of an entry with none of that key behind it.
proof fn lemma_key_has_last(entries: Seq<Entry>, k: Seq<char>)
    requires
        entries_map(entries).contains_key(k),
    ensures
        exists|i: int| 0 <= i < entries.len() && (#[trigger] entries[i]).key@ == k && is_last(entries, i),
    decreases entries.len(),
{
    if entries.len() > 0 {
        let front = entries.drop_last();
        assert(entries_map(entries) == entries_map(front).insert(
            entries.last().key@,
            entries.last().value@,
        ));
        if entries.last().key@ == k {
            assert(entries[entries.len() - 1].key@ == k && is_last(entries, entries.len() - 1));
        } else {
            lemma_key_has_last(front, k);
            let i = choose|i: int|
                0 <= i < front.len() && (#[trigger] front[i]).key@ == k && is_last(front, i);
            assert forall|j: int| i < j < entries.len() implies (#[trigger] entries[j]).key@
                != entries[i].key@ by {
                if j < front.len() {
                    assert(front[j].key@ != front[i].key@);
                }
            }
            assert(entries[i].key@ == k && is_last(entries, i));
        }
    }
}

impl Dict {
    /// A dictionary without entries.
    pub fn new() -> (d: Dict)
        ensures
            d@ == Map::<Seq<char>, Cos>::empty(),
    {
        Dict { entries: Vec::new() }
    }

    /// Maps `key` to `value`, whatever it was mapped to before.
    pub fn insert(&mut self, key: String, value: DictNode)
        ensures
            final(self)@ == old(self)@.insert(key@, value@),
    {
        self.entries.push(Entry { key, value });
        assert(self.entries@.drop_last() =~= old(self).entries@);
        assert(entries_map(self.entries@) == entries_map(self.entries@.drop_last()).insert(
            self.entries@.last().key@,
            self.entries@.last().value@,
        ));
    }

    /// The value that `key` is mapped to, if any.
    pub fn get(&self, key: &str) -> (r: Option<&DictNode>)
        ensures
            match r {
                Some(v) => self@.contains_key(key@) && v@ == self@[key@],
                None => !self@.contains_key(key@),
            },
    {
        let wanted = key.to_owned();
        let mut i: usize = self.entries.len();
        assert(self.entries@.subrange(0, i as int) =~= self.entries@);
        while i > 0
            invariant
                i <= self.entries.len(),
                wanted@ == key@,
                self@.contains_key(key@) == entries_map(
                    self.entries@.subrange(0, i as int),
                ).contains_key(key@),
                self@.contains_key(key@) ==> self@[key@] == entries_map(
                    self.entries@.subrange(0, i as int),
                )[key@],
            decreases i,
        {
            i -= 1;
            assert(self.entries@.subrange(0, i + 1).drop_last() =~= self.entries@.subrange(
                0,
                i as int,
            ));
            assert(self.entries@.subrange(0, i + 1).last() == self.entries@[i as int]);
            assert(entries_map(self.entries@.subrange(0, i + 1)) == entries_map(
                self.entries@.subrange(0, i as int),
            ).insert(self.entries@[i as int].key@, self.entries@[i as int].value@));
            let e = &self.entries[i];
            if e.key == wanted {
                return Some(&e.value);
            }
        }
        assert(entries_map(self.entries@.subrange(0, 0)) == Map::<Seq<char>, Cos>::empty());
        None
    }

    /// Whether `key` is mapped to a value.
    pub fn contains_key(&self, key: &str) -> (r: bool)
        ensures
            r == self@.contains_key(key@),
    {
        self.get(key).is_some()
    }

    /// Whether no entry behind the `i`-th has its key.
    fn last_for_key(&self, i: usize) -> (r: bool)
        requires
            i < self.entries.len(),
        ensures
            r == is_last(self.entries@, i as int),
    {
        let mut j: usize = i + 1;
        while j < self.entries.len()
            invariant
                i < j <= self.entries.len(),
                forall|k: int| i < k < j ==> (#[trigger] self.entries@[k]).key@ != self.entries@[i as int].key@,
            decreases self.entries.len() - j,
        {
            if self.entries[j].key == self.entries[i].key {
                return false;
            }
            j += 1;
        }
        true
    }

    /// Whether `other` maps every key of `self` to the value that `self` maps it to.
    fn covered_by(&self, other: &Dict) -> (r: bool)
        ensures
            r == (forall|k: Seq<char>| #[trigger]
                self@.contains_key(k) ==> other@.contains_key(k) && self@[k] == other@[k]),
        decreases self,
    {
        let mut i: usize = 0;
        while i < self.entries.len()
            invariant
                i <= self.entries.len(),
                forall|j: int|
                    0 <= j < i && is_last(self.entries@, j) ==> other@.contains_key(
                        (#[trigger] self.entries@[j]).key@,
                    ) && self@[self.entries@[j].key@] == other@[self.entries@[j].key@],
            decreases self.entries.len() - i,
        {
            if self.last_for_key(i) {
                proof {
                    lemma_last_entry(self.entries@, i as int);
                }
                let e = &self.entries[i];
                proof {
                    assert(decreases_to!(self => self.entries));
                    assert(decreases_to!(self.entries => self.entries@));
                    assert(decreases_to!(self.entries@ => self.entries@[i as int]));
                    assert(decreases_to!(self.entries@[i as int] => self.entries@[i as int].value));
                }
                let equal = match other.get(e.key.as_str()) {
                    Some(b) => e.value.same(b),
                    None => false,
                };
                if !equal {
                    assert(self@.contains_key(self.entries@[i as int].key@));
                    return false;
                }
            }
            i += 1;
        }
        assert forall|k: Seq<char>| #[trigger] self@.contains_key(k) implies other@.contains_key(k)
            && self@[k] == other@[k] by {
            lemma_key_has_last(self.entries@, k);
            let j = choose|j: int|
                0 <= j < self.entries@.len() && (#[trigger] self.entries@[j]).key@ == k
                    && is_last(self.entries@, j);
            assert(self.entries@[j].key@ == k);
        }
        true
    }

    /// Whether `other` has every key of `self`.
    fn keys_within(&self, other: &Dict) -> (r: bool)
        ensures
            r == (forall|k: Seq<char>| #[trigger] self@.contains_key(k) ==> other@.contains_key(k)),
    {
        let mut i: usize = 0;
        while i < self.entries.len()
            invariant
                i <= self.entries.len(),
                forall|j: int|
                    0 <= j < i && is_last(self.entries@, j) ==> other@.contains_key(
                        (#[trigger] self.entries@[j]).key@,
                    ),
            decreases self.entries.len() - i,
        {
            if self.last_for_key(i) {
                proof {
                    lemma_last_entry(self.entries@, i as int);
                }
                if !other.contains_key(self.entries[i].key.as_str()) {
                    assert(self@.contains_key(self.entries@[i as int].key@));
                    return false;
                }
            }
            i += 1;
        }
        assert forall|k: Seq<char>| #[trigger] self@.contains_key(k) implies other@.contains_key(
            k,
        ) by {
            lemma_key_has_last(self.entries@, k);
            let j = choose|j: int|
                0 <= j < self.entries@.len() && (#[trigger] self.entries@[j]).key@ == k
                    && is_last(self.entries@, j);
            assert(self.entries@[j].key@ == k);
        }
        true
    }

    /// A copy of the dictionary.
    pub fn duplicate(&self) -> (d: Dict)
        ensures
            d@ == self@,
        decreases self,
    {
        let mut entries: Vec<Entry> = Vec::new();
        let mut i: usize = 0;
        while i < self.entries.len()
            invariant
                i <= self.entries.len(),
                entries_map(entries@) == entries_map(self.entries@.subrange(0, i as int)),
            decreases self.entries.len() - i,
        {
            let e = &self.entries[i];
            proof {
                assert(self.entries@.subrange(0, i + 1).drop_last() =~= self.entries@.subrange(
                    0,
                    i as int,
                ));
                assert(self.entries@.subrange(0, i + 1).last() == self.entries@[i as int]);
                assert(entries_map(self.entries@.subrange(0, i + 1)) == entries_map(
                    self.entries@.subrange(0, i as int),
                ).insert(self.entries@[i as int].key@, self.entries@[i as int].value@));
                assert(decreases_to!(self => self.entries));
                assert(decreases_to!(self.entries => self.entries@));
                assert(decreases_to!(self.entries@ => self.entries@[i as int]));
                assert(decreases_to!(self.entries@[i as int] => self.entries@[i as int].value));
            }
            let value = e.value.duplicate();
            let ghost before = entries@;
            entries.push(Entry { key: e.key.clone(), value });
            assert(entries@.drop_last() =~= before);
            assert(entries_map(entries@) == entries_map(before).insert(
                entries@.last().key@,
                entries@.last().value@,
            ));
            i += 1;
        }
        assert(self.entries@.subrange(0, i as int) =~= self.entries@);
        assert(entries_map(self.entries@.subrange(0, 0)) == Map::<Seq<char>, Cos>::empty());
        Dict { entries }
    }
}

impl DictNode {
    /// Whether two nodes denote the same value.  The order in which a
    /// dictionary got its entries makes no difference.
    pub fn same(&self, other: &DictNode) -> (r: bool)
        ensures
            r == (self@ == other@),
        decreases self,
    {
        match (self, other) {
            (DictNode::Dict(a), DictNode::Dict(b)) => {
                let r = a.covered_by(b) && b.keys_within(a);
                proof {
                    if r {
                        assert(a@ =~= b@);
                    }
                }
                r
            },
            (DictNode::Array(a), DictNode::Array(b)) => {
                proof {
                    lemma_nodes_view(a@);
                    lemma_nodes_view(b@);
                }
                if a.len() != b.len() {
                    return false;
                }
                let mut i: usize = 0;
                while i < a.len()
                    invariant
                        i <= a.len(),
                        a.len() == b.len(),
                        self is Array,
                        self->Array_0 == *a,
                        other is Array,
                        other->Array_0 == *b,
                        nodes_view(a@).len() == a.len(),
                        nodes_view(b@).len() == b.len(),
                        forall|j: int|
                            0 <= j < a.len() ==> (#[trigger] nodes_view(a@)[j]) == a@[j]@,
                        forall|j: int|
                            0 <= j < b.len() ==> (#[trigger] nodes_view(b@)[j]) == b@[j]@,
                        forall|j: int| 0 <= j < i ==> (#[trigger] a@[j])@ == b@[j]@,
                    decreases a.len() - i,
                {
                    assert(nodes_view(a@)[i as int] == a@[i as int]@);
                    assert(nodes_view(b@)[i as int] == b@[i as int]@);
                    proof {
                        assert(decreases_to!(*self => self->Array_0));
                        assert(decreases_to!(*a => a@));
                        assert(decreases_to!(a@ => a@[i as int]));
                    }
                    if !a[i].same(&b[i]) {
                        assert(nodes_view(a@)[i as int] != nodes_view(b@)[i as int]);
                        return false;
                    }
                    i += 1;
                }
                assert(nodes_view(a@) =~= nodes_view(b@));
                true
            },
            (DictNode::ObjectReference(n, g), DictNode::ObjectReference(m, h)) => *n == *m && *g
                == *h,
            (DictNode::Bool(a), DictNode::Bool(b)) => *a == *b,
            (DictNode::Int(a), DictNode::Int(b)) => *a == *b,
            (DictNode::Float(a), DictNode::Float(b)) => *a == *b,
            (DictNode::Str(a), DictNode::Str(b)) => *a == *b,
            _ => false,
        }
    }

    /// A copy of the node.
    pub fn duplicate(&self) -> (n: DictNode)
        ensures
            n@ == self@,
        decreases self,
    {
        match self {
            DictNode::Dict(d) => DictNode::Dict(d.duplicate()),
            DictNode::Array(v) => {
                proof {
                    lemma_nodes_view(v@);
                }
                let mut items: Vec<DictNode> = Vec::new();
                let mut i: usize = 0;
                while i < v.len()
                    invariant
                        i <= v.len(),
                        self is Array,
                        self->Array_0 == *v,
                        items.len() == i,
                        forall|j: int| 0 <= j < i ==> (#[trigger] items@[j])@ == v@[j]@,
                    decreases v.len() - i,
                {
                    proof {
                        assert(decreases_to!(*self => self->Array_0));
                        assert(decreases_to!(*v => v@));
                        assert(decreases_to!(v@ => v@[i as int]));
                    }
                    let item = v[i].duplicate();
                    items.push(item);
                    i += 1;
                }
                proof {
                    lemma_nodes_view(items@);
                    assert(nodes_view(items@) =~= nodes_view(v@));
                }
                DictNode::Array(items)
            },
            DictNode::ObjectReference(n, g) => DictNode::ObjectReference(*n, *g),
            DictNode::Bool(b) => DictNode::Bool(*b),
            DictNode::Int(i) => DictNode::Int(*i),
            DictNode::Float(t) => DictNode::Float(t.clone()),
            DictNode::Str(t) => DictNode::Str(t.clone()),
        }
    }
}

impl Clone for Dict {
    fn clone(&self) -> (d: Dict) {
        self.duplicate()
    }
}

impl Clone for DictNode {
    fn clone(&self) -> (n: DictNode) {
        self.duplicate()
    }
}

impl PartialEq for DictNode {
    fn eq(&self, other: &DictNode) -> (r: bool) {
        self.same(other)
    }
}

impl vstd::std_specs::cmp::PartialEqSpecImpl for DictNode {
    open spec fn obeys_eq_spec() -> bool {
        true
    }

    open spec fn eq_spec(&self, other: &DictNode) -> bool {
        self@ == other@
    }
}

} // verus!
