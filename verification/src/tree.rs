//! The value model shared by every source: a tree of nulls, booleans, numbers,
//! strings, arrays and objects.

use crate::text::views;
use serde_json::Number;
use vstd::prelude::*;

verus! {

/// `serde_json::Number`, carried through a tree unread.
#[verifier::external_type_specification]
#[verifier::external_body]
pub struct ExNumber(serde_json::Number);

/// `Clone::clone` of `serde_json::Number`: the copy is the number itself.
pub assume_specification[ <serde_json::Number as Clone>::clone ](n: &serde_json::Number) -> (copy:
    serde_json::Number)
    ensures
        copy == *n,
;

/// The class of a number under the `==` of `serde_json::Number`: two numbers
/// have one key exactly when `==` calls them equal. An integer and a fraction
/// never share a key; `0.0` and `-0.0` do.
pub uninterp spec fn number_key(number: serde_json::Number) -> int;

/// `==` of `serde_json::Number`: an equivalence on numbers, so it is the
/// equality of their keys.
#[verifier::external_body]
fn same_number(a: &serde_json::Number, b: &serde_json::Number) -> (same: bool)
    ensures
        same == (number_key(*a) == number_key(*b)),
{
    a == b
}

/// `serde_json::Value`, what the parsers hand back.
#[verifier::external_type_specification]
#[verifier::external_body]
pub struct ExValue(serde_json::Value);

/// What a tree is, mathematically: an object is a map from keys to trees, an
/// array is a sequence of trees, a number is its key: numbers that compare
/// equal are one number.
pub enum TreeModel {
    Null,
    Bool(bool),
    Number(int),
    String(Seq<char>),
    Array(Seq<TreeModel>),
    Object(Map<Seq<char>, TreeModel>),
}

impl TreeModel {
    /// The object without members.
    pub open spec fn empty_object() -> TreeModel {
        TreeModel::Object(Map::empty())
    }

    /// The tree found by walking down `path`, one member of an object per
    /// key; `None` where a key is missing or the walk meets no object.
    pub open spec fn lookup(self, path: Seq<Seq<char>>) -> Option<TreeModel>
        decreases path.len(),
    {
        if path.len() == 0 {
            Some(self)
        } else {
            match self {
                TreeModel::Object(members) => if members.dom().contains(path[0]) {
                    members[path[0]].lookup(path.drop_first())
                } else {
                    None
                },
                _ => None,
            }
        }
    }
}

/// A tree of semi-structured data.
#[derive(Debug)]
pub enum Tree {
    Null,
    Bool(bool),
    Number(Number),
    String(String),
    Array(Vec<Tree>),
    Object(ObjectMap),
}

/// The members of an object. No key occurs twice.
#[derive(Debug)]
pub struct ObjectMap {
    entries: Vec<(String, Tree)>,
}

/// The models of a sequence of trees, in order.
pub open spec fn items_model(items: Seq<Tree>) -> Seq<TreeModel>
    decreases items, 0nat,
{
    Seq::new(
        items.len(),
        |i: int|
            if 0 <= i < items.len() {
                tree_model(items[i])
            } else {
                TreeModel::Null
            },
    )
}

/// The model of a tree.
pub open spec fn tree_model(tree: Tree) -> TreeModel
    decreases tree, 1nat,
{
    match tree {
        Tree::Null => TreeModel::Null,
        Tree::Bool(b) => TreeModel::Bool(b),
        Tree::Number(n) => TreeModel::Number(number_key(n)),
        Tree::String(s) => TreeModel::String(s@),
        Tree::Array(items) => TreeModel::Array(items_model(items@)),
        Tree::Object(members) => TreeModel::Object(members.model()),
    }
}

/// The map that a list of members stands for; of two members with one key the
/// later one counts.
pub closed spec fn entries_model(entries: Seq<(String, Tree)>) -> Map<Seq<char>, TreeModel>
    decreases entries, 0nat,
{
    if entries.len() == 0 {
        Map::empty()
    } else {
        entries_model(entries.drop_last()).insert(
            entries.last().0@,
            tree_model(entries.last().1),
        )
    }
}

spec fn distinct(entries: Seq<(String, Tree)>) -> bool {
    forall|i: int, j: int| 0 <= i < j < entries.len() ==> entries[i].0@ != entries[j].0@
}

impl View for Tree {
    type V = TreeModel;

    open spec fn view(&self) -> TreeModel {
        tree_model(*self)
    }
}

impl View for ObjectMap {
    type V = Map<Seq<char>, TreeModel>;

    open spec fn view(&self) -> Map<Seq<char>, TreeModel> {
        self.model()
    }
}

proof fn lemma_entries_push(entries: Seq<(String, Tree)>, entry: (String, Tree))
    ensures
        entries_model(entries.push(entry)) == entries_model(entries).insert(
            entry.0@,
            tree_model(entry.1),
        ),
{
    assert(entries.push(entry).drop_last() =~= entries);
}

proof fn lemma_entries_dom(entries: Seq<(String, Tree)>, key: Seq<char>)
    ensures
        entries_model(entries).dom().contains(key) <==> exists|i: int|
            0 <= i < entries.len() && (#[trigger] entries[i]).0@ == key,
    decreases entries.len(),
{
    if entries.len() > 0 {
        let front = entries.drop_last();
        lemma_entries_dom(front, key);
        if entries_model(entries).dom().contains(key) {
            if entries.last().0@ == key {
                assert(entries[entries.len() - 1].0@ == key);
            } else {
                let i = choose|i: int| 0 <= i < front.len() && (#[trigger] front[i]).0@ == key;
                assert(entries[i].0@ == key);
            }
        }
        if exists|i: int| 0 <= i < entries.len() && (#[trigger] entries[i]).0@ == key {
            let i = choose|i: int| 0 <= i < entries.len() && (#[trigger] entries[i]).0@ == key;
            if i < entries.len() - 1 {
                assert(front[i].0@ == key);
            }
        }
    }
}

proof fn lemma_entries_finite(entries: Seq<(String, Tree)>)
    ensures
        entries_model(entries).dom().finite(),
    decreases entries.len(),
{
    if entries.len() > 0 {
        lemma_entries_finite(entries.drop_last());
    }
}

proof fn lemma_entries_at(entries: Seq<(String, Tree)>, i: int)
    requires
        distinct(entries),
        0 <= i < entries.len(),
    ensures
        entries_model(entries).dom().contains(entries[i].0@),
        entries_model(entries)[entries[i].0@] == tree_model(entries[i].1),
    decreases entries.len(),
{
    if i < entries.len() - 1 {
        let front = entries.drop_last();
        assert(front[i] == entries[i]);
        lemma_entries_at(front, i);
    }
}

proof fn lemma_entries_remove(entries: Seq<(String, Tree)>, i: int)
    requires
        distinct(entries),
        0 <= i < entries.len(),
    ensures
        distinct(entries.remove(i)),
        entries_model(entries.remove(i)) == entries_model(entries).remove(entries[i].0@),
    decreases entries.len(),
{
    let front = entries.drop_last();
    let key = entries[i].0@;
    if i == entries.len() - 1 {
        assert(entries.remove(i) =~= front);
        lemma_entries_dom(front, key);
        assert(entries_model(front) =~= entries_model(entries).remove(key));
    } else {
        let last = entries.last();
        assert(front[i] == entries[i]);
        lemma_entries_remove(front, i);
        assert(entries.remove(i) =~= front.remove(i).push(last));
        lemma_entries_push(front.remove(i), last);
        assert(entries_model(front).remove(key).insert(last.0@, tree_model(last.1))
            =~= entries_model(entries).remove(key));
    }
}

proof fn lemma_entries_len(entries: Seq<(String, Tree)>)
    requires
        distinct(entries),
    ensures
        entries_model(entries).dom().finite(),
        entries_model(entries).dom().len() == entries.len(),
    decreases entries.len(),
{
    if entries.len() > 0 {
        let front = entries.drop_last();
        lemma_entries_len(front);
        lemma_entries_dom(front, entries.last().0@);
    }
}

proof fn lemma_entries_congruent(a: Seq<(String, Tree)>, b: Seq<(String, Tree)>)
    requires
        a.len() == b.len(),
        forall|i: int|
            0 <= i < a.len() ==> (#[trigger] a[i]).0@ == b[i].0@ && tree_model(a[i].1)
                == tree_model(b[i].1),
    ensures
        entries_model(a) == entries_model(b),
    decreases a.len(),
{
    if a.len() > 0 {
        let last = a.len() - 1;
        assert(a[last].0@ == b[last].0@);
        assert forall|i: int| 0 <= i < a.drop_last().len() implies (#[trigger] a.drop_last()[i]).0@
            == b.drop_last()[i].0@ && tree_model(a.drop_last()[i].1) == tree_model(
            b.drop_last()[i].1,
        ) by {
            assert(a[i].0@ == b[i].0@);
        }
        lemma_entries_congruent(a.drop_last(), b.drop_last());
    }
}

impl ObjectMap {
    #[verifier::type_invariant]
    spec fn distinct_keys(self) -> bool {
        distinct(self.entries@)
    }

    /// The members as a map from key to tree.
    pub closed spec fn model(self) -> Map<Seq<char>, TreeModel>
        decreases self, 1nat,
    {
        entries_model(self.entries@)
    }

    /// An object has finitely many members.
    pub proof fn lemma_finite(self)
        ensures
            self@.dom().finite(),
    {
        lemma_entries_finite(self.entries@);
    }

    /// No members.
    pub fn new() -> (members: ObjectMap)
        ensures
            members@ == Map::<Seq<char>, TreeModel>::empty(),
    {
        ObjectMap { entries: Vec::new() }
    }

    /// The number of members.
    pub fn len(&self) -> (count: usize)
        ensures
            self@.dom().finite(),
            count == self@.dom().len(),
    {
        proof {
            use_type_invariant(self);
            lemma_entries_len(self.entries@);
        }
        self.entries.len()
    }

    fn position(&self, key: &String) -> (found: Option<usize>)
        ensures
            match found {
                Some(i) => i < self.entries.len() && self.entries[i as int].0@ == key@
                    && self@.dom().contains(key@),
                None => !self@.dom().contains(key@),
            },
    {
        let mut i: usize = 0;
        while i < self.entries.len()
            invariant
                i <= self.entries.len(),
                forall|j: int| 0 <= j < i ==> (#[trigger] self.entries[j]).0@ != key@,
            decreases self.entries.len() - i,
        {
            if self.entries[i].0 == *key {
                proof {
                    lemma_entries_dom(self.entries@, key@);
                }
                return Some(i);
            }
            i = i + 1;
        }
        proof {
            lemma_entries_dom(self.entries@, key@);
        }
        None
    }

    /// Whether a member has this key.
    pub fn contains_key(&self, key: &str) -> (present: bool)
        ensures
            present == self@.dom().contains(key@),
    {
        let owned = key.to_owned();
        self.position(&owned).is_some()
    }

    /// The member with this key, if there is one.
    pub fn get(&self, key: &str) -> (found: Option<&Tree>)
        ensures
            match found {
                Some(tree) => self@.dom().contains(key@) && self@[key@] == tree@,
                None => !self@.dom().contains(key@),
            },
    {
        let owned = key.to_owned();
        match self.position(&owned) {
            Some(i) => {
                proof {
                    use_type_invariant(self);
                    lemma_entries_at(self.entries@, i as int);
                }
                Some(&self.entries[i].1)
            },
            None => None,
        }
    }

    /// Puts `value` under `key` and hands back what stood there before.
    pub fn insert(&mut self, key: String, value: Tree) -> (previous: Option<Tree>)
        ensures
            final(self)@ == old(self)@.insert(key@, value@),
            match previous {
                Some(tree) => old(self)@.dom().contains(key@) && old(self)@[key@] == tree@,
                None => !old(self)@.dom().contains(key@),
            },
    {
        proof {
            use_type_invariant(&*self);
        }
        let found = self.position(&key);
        let mut entries: Vec<(String, Tree)> = Vec::new();
        std::mem::swap(&mut entries, &mut self.entries);
        let ghost before = entries@;
        let previous = match found {
            Some(i) => {
                proof {
                    lemma_entries_at(before, i as int);
                    lemma_entries_remove(before, i as int);
                }
                Some(entries.remove(i).1)
            },
            None => None,
        };
        proof {
            lemma_entries_dom(entries@, key@);
            lemma_entries_push(entries@, (key, value));
            assert(entries_model(before).remove(key@).insert(key@, value@) =~= entries_model(
                before,
            ).insert(key@, value@));
        }
        entries.push((key, value));
        self.entries = entries;
        previous
    }

    /// Takes the member with this key out, if there is one.
    pub fn remove(&mut self, key: &str) -> (removed: Option<Tree>)
        ensures
            final(self)@ == old(self)@.remove(key@),
            match removed {
                Some(tree) => old(self)@.dom().contains(key@) && old(self)@[key@] == tree@,
                None => !old(self)@.dom().contains(key@),
            },
    {
        proof {
            use_type_invariant(&*self);
        }
        let owned = key.to_owned();
        match self.position(&owned) {
            Some(i) => {
                let mut entries: Vec<(String, Tree)> = Vec::new();
                std::mem::swap(&mut entries, &mut self.entries);
                proof {
                    lemma_entries_at(entries@, i as int);
                    lemma_entries_remove(entries@, i as int);
                }
                let entry = entries.remove(i);
                self.entries = entries;
                Some(entry.1)
            },
            None => {
                assert(self@.remove(key@) =~= self@);
                None
            },
        }
    }

    /// The members as a list: every member once, no key twice.
    pub fn into_entries(self) -> (entries: Vec<(String, Tree)>)
        ensures
            decreases_to!(self => entries),
            forall|i: int, j: int|
                0 <= i < j < entries.len() ==> (#[trigger] entries[i]).0@ != (
                #[trigger] entries[j]).0@,
            forall|i: int|
                0 <= i < entries.len() ==> self@.dom().contains((#[trigger] entries[i]).0@)
                    && self@[entries[i].0@] == entries[i].1@,
            forall|key: Seq<char>|
                self@.dom().contains(key) ==> exists|i: int|
                    0 <= i < entries.len() && (#[trigger] entries[i]).0@ == key,
    {
        proof {
            use_type_invariant(&self);
            assert forall|i: int| 0 <= i < self.entries.len() implies self@.dom().contains(
                (#[trigger] self.entries[i]).0@,
            ) && self@[self.entries[i].0@] == self.entries[i].1@ by {
                lemma_entries_at(self.entries@, i);
            }
            assert forall|key: Seq<char>| self@.dom().contains(key) implies exists|i: int|
                0 <= i < self.entries.len() && (#[trigger] self.entries[i]).0@ == key by {
                lemma_entries_dom(self.entries@, key);
            }
        }
        self.entries
    }

    /// Takes some member out; `None` when there is none left.
    pub fn pop(&mut self) -> (member: Option<(String, Tree)>)
        ensures
            match member {
                Some((key, tree)) => old(self)@.dom().contains(key@) && old(self)@[key@] == tree@
                    && final(self)@ == old(self)@.remove(key@),
                None => old(self)@ == Map::<Seq<char>, TreeModel>::empty() && final(self)@ == old(
                    self,
                )@,
            },
    {
        proof {
            use_type_invariant(&*self);
        }
        let mut entries: Vec<(String, Tree)> = Vec::new();
        std::mem::swap(&mut entries, &mut self.entries);
        let ghost before = entries@;
        let member = entries.pop();
        proof {
            if before.len() > 0 {
                let last = before.len() - 1;
                lemma_entries_at(before, last);
                lemma_entries_remove(before, last);
                assert(before.remove(last) =~= entries@);
            }
        }
        self.entries = entries;
        member
    }
}

/// The tree that a `serde_json::Value` holds.
pub uninterp spec fn value_model(value: serde_json::Value) -> TreeModel;

/// Takes a `serde_json::Value` apart into a tree, variant for variant, moving
/// every scalar over as it is: the tree is what the value holds. The members
/// of a `serde_json::Map` have distinct keys, so those of the tree's objects
/// have.
#[verifier::external_body]
pub(crate) fn tree_from_json(value: serde_json::Value) -> (tree: Tree)
    ensures
        tree@ == value_model(value),
{
    match value {
        serde_json::Value::Null => Tree::Null,
        serde_json::Value::Bool(b) => Tree::Bool(b),
        serde_json::Value::Number(n) => Tree::Number(n),
        serde_json::Value::String(s) => Tree::String(s),
        serde_json::Value::Array(items) => Tree::Array(
            items.into_iter().map(tree_from_json).collect(),
        ),
        serde_json::Value::Object(members) => Tree::Object(
            ObjectMap { entries: members.into_iter().map(|(k, v)| (k, tree_from_json(v))).collect() },
        ),
    }
}

impl Tree {
    /// The object without members.
    pub fn empty_object() -> (tree: Tree)
        ensures
            tree@ == TreeModel::empty_object(),
    {
        Tree::Object(ObjectMap::new())
    }

    /// Whether the tree is an object.
    pub fn is_object(&self) -> (yes: bool)
        ensures
            yes == (self@ is Object),
    {
        match self {
            Tree::Object(_) => true,
            _ => false,
        }
    }

    /// The tree found by walking down `path`, if there is one.
    pub fn find(&self, path: &Vec<String>) -> (found: Option<&Tree>)
        ensures
            match found {
                Some(tree) => self@.lookup(views(path@)) == Some(tree@),
                None => self@.lookup(views(path@)) is None,
            },
    {
        let ghost keys = views(path@);
        let mut at = self;
        let mut i: usize = 0;
        assert(keys.skip(0) =~= keys);
        while i < path.len()
            invariant
                i <= path.len(),
                keys == views(path@),
                self@.lookup(keys) == at@.lookup(keys.skip(i as int)),
            decreases path.len() - i,
        {
            assert(keys.skip(i as int).drop_first() =~= keys.skip(i + 1));
            assert(keys.skip(i as int)[0] == path[i as int]@);
            match at.get(path[i].as_str()) {
                Some(below) => {
                    at = below;
                },
                None => {
                    return None;
                },
            }
            i = i + 1;
        }
        Some(at)
    }

    /// Whether the two trees are the same tree. Objects are compared as maps:
    /// the order of their members does not count.
    pub fn same(&self, other: &Tree) -> (same: bool)
        ensures
            same == (self@ == other@),
        decreases self,
    {
        match (self, other) {
            (Tree::Null, Tree::Null) => true,
            (Tree::Bool(a), Tree::Bool(b)) => *a == *b,
            (Tree::Number(a), Tree::Number(b)) => same_number(a, b),
            (Tree::String(a), Tree::String(b)) => *a == *b,
            (Tree::Array(a), Tree::Array(b)) => {
                if a.len() != b.len() {
                    assert(items_model(a@).len() != items_model(b@).len());
                    return false;
                }
                let mut i: usize = 0;
                while i < a.len()
                    invariant
                        i <= a.len(),
                        a.len() == b.len(),
                        decreases_to!(self => a),
                        self@ == TreeModel::Array(items_model(a@)),
                        other@ == TreeModel::Array(items_model(b@)),
                        forall|j: int| 0 <= j < i ==> tree_model(#[trigger] a[j]) == tree_model(b[j]),
                    decreases a.len() - i,
                {
                    proof {
                        vstd::std_specs::vec::axiom_vec_index_decreases(*a, i as int);
                    }
                    if !a[i].same(&b[i]) {
                        assert(items_model(a@)[i as int] != items_model(b@)[i as int]);
                        return false;
                    }
                    i = i + 1;
                }
                assert(items_model(a@) =~= items_model(b@));
                true
            },
            (Tree::Object(a), Tree::Object(b)) => {
                if a.len() != b.len() {
                    return false;
                }
                proof {
                    use_type_invariant(a);
                }
                let mut i: usize = 0;
                while i < a.entries.len()
                    invariant
                        i <= a.entries.len(),
                        distinct(a.entries@),
                        a@.dom().finite(),
                        b@.dom().finite(),
                        a@.dom().len() == b@.dom().len(),
                        decreases_to!(self => a.entries),
                        self@ == TreeModel::Object(a@),
                        other@ == TreeModel::Object(b@),
                        forall|j: int|
                            0 <= j < i ==> b@.dom().contains((#[trigger] a.entries[j]).0@)
                                && a@.dom().contains(a.entries[j].0@) && b@[a.entries[j].0@]
                                == a@[a.entries[j].0@],
                    decreases a.entries.len() - i,
                {
                    proof {
                        vstd::std_specs::vec::axiom_vec_index_decreases(a.entries, i as int);
                        lemma_entries_at(a.entries@, i as int);
                    }
                    match b.get(a.entries[i].0.as_str()) {
                        Some(there) => {
                            if !a.entries[i].1.same(there) {
                                return false;
                            }
                        },
                        None => {
                            return false;
                        },
                    }
                    i = i + 1;
                }
                proof {
                    assert forall|k: Seq<char>|
                        #![trigger a@.dom().contains(k)]
                        a@.dom().contains(k) implies b@.dom().contains(k) && a@[k] == b@[k] by {
                        lemma_entries_dom(a.entries@, k);
                        let j = choose|j: int|
                            0 <= j < a.entries.len() && (#[trigger] a.entries[j]).0@ == k;
                        assert(b@.dom().contains(a.entries[j].0@));
                    }
                    assert(a@.dom().subset_of(b@.dom()));
                    vstd::set_lib::lemma_subset_equality(a@.dom(), b@.dom());
                    assert(a@ =~= b@);
                }
                true
            },
            _ => false,
        }
    }

    /// The member under `key`, when the tree is an object that has one.
    pub fn get(&self, key: &str) -> (found: Option<&Tree>)
        ensures
            match found {
                Some(tree) => self@ matches TreeModel::Object(members) && members.dom().contains(
                    key@,
                ) && members[key@] == tree@,
                None => self@ matches TreeModel::Object(members) ==> !members.dom().contains(key@),
            },
    {
        match self {
            Tree::Object(members) => members.get(key),
            _ => None,
        }
    }
}

impl Clone for Tree {
    /// A copy of the tree.
    fn clone(&self) -> (copy: Tree)
        ensures
            copy@ == self@,
        decreases self,
    {
        match self {
            Tree::Null => Tree::Null,
            Tree::Bool(b) => Tree::Bool(*b),
            Tree::Number(n) => Tree::Number(n.clone()),
            Tree::String(s) => Tree::String(s.clone()),
            Tree::Array(items) => {
                let mut copies: Vec<Tree> = Vec::new();
                let mut i: usize = 0;
                while i < items.len()
                    invariant
                        i <= items.len(),
                        copies.len() == i,
                        decreases_to!(self => items),
                        forall|j: int| 0 <= j < i ==> tree_model(#[trigger] copies[j]) == tree_model(
                            items[j],
                        ),
                    decreases items.len() - i,
                {
                    proof {
                        vstd::std_specs::vec::axiom_vec_index_decreases(*items, i as int);
                    }
                    let copy = items[i].clone();
                    copies.push(copy);
                    i = i + 1;
                }
                assert(items_model(copies@) =~= items_model(items@));
                Tree::Array(copies)
            },
            Tree::Object(members) => {
                proof {
                    use_type_invariant(members);
                }
                let mut copies: Vec<(String, Tree)> = Vec::new();
                let mut i: usize = 0;
                while i < members.entries.len()
                    invariant
                        i <= members.entries.len(),
                        copies.len() == i,
                        decreases_to!(self => members.entries),
                        forall|j: int|
                            0 <= j < i ==> (#[trigger] copies[j]).0@ == members.entries[j].0@
                                && tree_model(copies[j].1) == tree_model(members.entries[j].1),
                    decreases members.entries.len() - i,
                {
                    proof {
                        vstd::std_specs::vec::axiom_vec_index_decreases(members.entries, i as int);
                    }
                    let key = members.entries[i].0.clone();
                    let copy = members.entries[i].1.clone();
                    copies.push((key, copy));
                    i = i + 1;
                }
                proof {
                    lemma_entries_congruent(copies@, members.entries@);
                }
                Tree::Object(ObjectMap { entries: copies })
            },
        }
    }
}

impl PartialEq for Tree {
    fn eq(&self, other: &Tree) -> (same: bool) {
        self.same(other)
    }
}

impl vstd::std_specs::cmp::PartialEqSpecImpl for Tree {
    open spec fn obeys_eq_spec() -> bool {
        true
    }

    open spec fn eq_spec(&self, other: &Tree) -> bool {
        self@ == other@
    }
}

} // verus!
