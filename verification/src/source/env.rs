//! Configuration from environment variables: `PREFIX` + `A__B__C=value`
//! becomes `{"a": {"b": {"c": "value"}}}`.

use crate::text::{
    lemma_split_join, lowercase, lowercased, split, split_model, strip_prefix, views,
};
use crate::tree::{ObjectMap, Tree, TreeModel};
use vstd::prelude::*;

verus! {

/// Reads configuration out of environment variables whose names begin with a
/// prefix; the rest of a name, in lower case, is cut at a delimiter into the
/// path of nested objects under which the variable's value is stored.
pub struct Env {
    prefix: String,
    delimiter: String,
}

/// The settings of an [`Env`].
pub struct EnvModel {
    pub prefix: Seq<char>,
    pub delimiter: Seq<char>,
}

impl View for Env {
    type V = EnvModel;

    closed spec fn view(&self) -> EnvModel {
        EnvModel { prefix: self.prefix@, delimiter: self.delimiter@ }
    }
}

/// `root` with `leaf` stored under `path`. Along the path every tree that is
/// no object, or is missing, gives way to an object; what stood at the end of
/// the path gives way to `leaf`.
pub open spec fn insert_path(root: TreeModel, path: Seq<Seq<char>>, leaf: TreeModel) -> TreeModel
    decreases path.len(),
{
    if path.len() == 0 {
        leaf
    } else {
        let members = match root {
            TreeModel::Object(m) => m,
            _ => Map::empty(),
        };
        let child = if members.dom().contains(path[0]) {
            members[path[0]]
        } else {
            TreeModel::empty_object()
        };
        TreeModel::Object(members.insert(path[0], insert_path(child, path.drop_first(), leaf)))
    }
}

/// `tree` after one variable: unchanged when the name lacks the prefix or is
/// the prefix itself; else with the value stored as a string under the path
/// that the rest of the name spells.
pub open spec fn absorb_variable(
    tree: TreeModel,
    env: EnvModel,
    name: Seq<char>,
    value: Seq<char>,
) -> TreeModel {
    if !env.prefix.is_prefix_of(name) || name.len() == env.prefix.len() {
        tree
    } else {
        insert_path(
            tree,
            split_model(lowercased(name.skip(env.prefix.len() as int)), env.delimiter),
            TreeModel::String(value),
        )
    }
}

/// The tree of a list of variables: they are absorbed one after the other,
/// so of two that collide the later one stays.
pub open spec fn env_model(env: EnvModel, variables: Seq<(Seq<char>, Seq<char>)>) -> TreeModel
    decreases variables.len(),
{
    if variables.len() == 0 {
        TreeModel::empty_object()
    } else {
        absorb_variable(
            env_model(env, variables.drop_last()),
            env,
            variables.last().0,
            variables.last().1,
        )
    }
}

/// The views of a list of name and value pairs.
pub open spec fn pairs_view(variables: Seq<(String, String)>) -> Seq<(Seq<char>, Seq<char>)> {
    Seq::new(variables.len(), |i: int| (variables[i].0@, variables[i].1@))
}

/// Storing under a path that is not empty gives an object.
pub proof fn lemma_insert_path_object(root: TreeModel, path: Seq<Seq<char>>, leaf: TreeModel)
    requires
        path.len() > 0,
    ensures
        insert_path(root, path, leaf) is Object,
{
}

/// What is stored under a path is found under it.
pub proof fn lemma_insert_then_lookup(root: TreeModel, path: Seq<Seq<char>>, leaf: TreeModel)
    ensures
        insert_path(root, path, leaf).lookup(path) == Some(leaf),
    decreases path.len(),
{
    if path.len() > 0 {
        let members = match root {
            TreeModel::Object(m) => m,
            _ => Map::empty(),
        };
        let child = if members.dom().contains(path[0]) {
            members[path[0]]
        } else {
            TreeModel::empty_object()
        };
        lemma_insert_then_lookup(child, path.drop_first(), leaf);
    }
}

/// The variables whose names begin with the prefix, in their order.
pub open spec fn with_prefix(env: EnvModel, variables: Seq<(Seq<char>, Seq<char>)>) -> Seq<
    (Seq<char>, Seq<char>),
>
    decreases variables.len(),
{
    if variables.len() == 0 {
        Seq::empty()
    } else if env.prefix.is_prefix_of(variables.last().0) {
        with_prefix(env, variables.drop_last()).push(variables.last())
    } else {
        with_prefix(env, variables.drop_last())
    }
}

/// Filtering, as a whole: the tree of a list of variables is the tree of
/// those among them whose names begin with the prefix. The others add no key
/// and no value anywhere, whatever their values.
pub proof fn lemma_only_prefixed_count(env: EnvModel, variables: Seq<(Seq<char>, Seq<char>)>)
    ensures
        env_model(env, variables) == env_model(env, with_prefix(env, variables)),
    decreases variables.len(),
{
    if variables.len() > 0 {
        let front = variables.drop_last();
        lemma_only_prefixed_count(env, front);
        if env.prefix.is_prefix_of(variables.last().0) {
            let kept = with_prefix(env, front).push(variables.last());
            assert(kept.drop_last() =~= with_prefix(env, front));
        }
    }
}

/// Nesting: a variable whose name begins with the prefix and goes on behind
/// it is found, as a string, under the path that the rest of its name spells.
pub proof fn lemma_variable_found(
    tree: TreeModel,
    env: EnvModel,
    name: Seq<char>,
    value: Seq<char>,
)
    requires
        env.prefix.is_prefix_of(name),
        name.len() > env.prefix.len(),
    ensures
        absorb_variable(tree, env, name, value).lookup(
            split_model(lowercased(name.skip(env.prefix.len() as int)), env.delimiter),
        ) == Some(TreeModel::String(value)),
{
    lemma_insert_then_lookup(
        tree,
        split_model(lowercased(name.skip(env.prefix.len() as int)), env.delimiter),
        TreeModel::String(value),
    );
}

/// Filtering: a variable whose name does not begin with the prefix leaves no
/// trace, whatever its value. The tree is that of the list without it.
pub proof fn lemma_unprefixed_ignored(
    env: EnvModel,
    variables: Seq<(Seq<char>, Seq<char>)>,
    i: int,
)
    requires
        0 <= i < variables.len(),
        !env.prefix.is_prefix_of(variables[i].0),
    ensures
        env_model(env, variables) == env_model(env, variables.remove(i)),
    decreases variables.len(),
{
    if i == variables.len() - 1 {
        assert(variables.remove(i) =~= variables.drop_last());
    } else {
        lemma_unprefixed_ignored(env, variables.drop_last(), i);
        assert(variables.remove(i).drop_last() =~= variables.drop_last().remove(i));
        assert(variables.remove(i).last() == variables.last());
    }
}

fn place_from(root: Tree, path: &Vec<String>, from: usize, leaf: Tree) -> (placed: Tree)
    requires
        from <= path.len(),
    ensures
        placed@ == insert_path(root@, views(path@).skip(from as int), leaf@),
    decreases path.len() - from,
{
    if from == path.len() {
        leaf
    } else {
        let ghost rest = views(path@).skip(from as int);
        let mut members = match root {
            Tree::Object(m) => m,
            _ => ObjectMap::new(),
        };
        let ghost before = members@;
        let key = path[from].clone();
        assert(key@ == rest[0]);
        let child = match members.remove(key.as_str()) {
            Some(c) => c,
            None => Tree::empty_object(),
        };
        assert(rest.drop_first() =~= views(path@).skip(from + 1));
        let below = place_from(child, path, from + 1, leaf);
        members.insert(key, below);
        assert(members@ =~= before.insert(rest[0], below@));
        Tree::Object(members)
    }
}

/// Stores `leaf` in `root` under `path`.
pub fn place(root: Tree, path: &Vec<String>, leaf: Tree) -> (placed: Tree)
    ensures
        placed@ == insert_path(root@, views(path@), leaf@),
{
    assert(views(path@).skip(0) =~= views(path@));
    place_from(root, path, 0, leaf)
}

/// Stores `value` as a string in `root` under the path that `lowered` spells
/// when cut at `delimiter`.
pub fn place_variable(root: Tree, lowered: &str, delimiter: &str, value: &str) -> (placed: Tree)
    ensures
        placed@ == insert_path(
            root@,
            split_model(lowered@, delimiter@),
            TreeModel::String(value@),
        ),
        placed@ is Object,
{
    let path = split(lowered, delimiter);
    proof {
        lemma_split_join(lowered@, delimiter@);
    }
    place(root, &path, Tree::String(value.to_owned()))
}

impl Env {
    /// No prefix, and `__` as the delimiter.
    pub fn new() -> (env: Env)
        ensures
            env@.prefix == Seq::<char>::empty(),
            env@.delimiter == "__"@,
    {
        Env { prefix: String::new(), delimiter: "__".to_owned() }
    }

    /// Only variables whose names begin with `prefix` are read, and the
    /// prefix is cut off the name.
    pub fn prefix(self, prefix: &str) -> (env: Env)
        ensures
            env@.prefix == prefix@,
            env@.delimiter == self@.delimiter,
    {
        Env { prefix: prefix.to_owned(), delimiter: self.delimiter }
    }

    /// The text that parts the segments of a name.
    pub fn delimiter(self, delimiter: &str) -> (env: Env)
        ensures
            env@.prefix == self@.prefix,
            env@.delimiter == delimiter@,
    {
        Env { prefix: self.prefix, delimiter: delimiter.to_owned() }
    }

    /// `tree` after the variable `name` with `value`.
    pub fn absorb(&self, tree: Tree, name: &str, value: &str) -> (absorbed: Tree)
        ensures
            absorbed@ == absorb_variable(tree@, self@, name@, value@),
            tree@ is Object ==> absorbed@ is Object,
    {
        match strip_prefix(name, self.prefix.as_str()) {
            Some(rest) => {
                if rest.as_str().is_empty() {
                    tree
                } else {
                    let lowered = lowercase(rest.as_str());
                    place_variable(tree, lowered.as_str(), self.delimiter.as_str(), value)
                }
            },
            None => tree,
        }
    }

    /// The tree of the given variables, taken as the environment. They are
    /// absorbed in the order given: where two collide, the later one stays.
    /// Variables whose names do not begin with the prefix leave no trace.
    pub fn collect(&self, variables: &Vec<(String, String)>) -> (tree: Tree)
        ensures
            tree@ == env_model(self@, pairs_view(variables@)),
            tree@ == env_model(self@, with_prefix(self@, pairs_view(variables@))),
            tree@ is Object,
    {
        proof {
            lemma_only_prefixed_count(self@, pairs_view(variables@));
        }
        let ghost all = pairs_view(variables@);
        let mut tree = Tree::empty_object();
        let mut i: usize = 0;
        assert(all.take(0) =~= Seq::<(Seq<char>, Seq<char>)>::empty());
        while i < variables.len()
            invariant
                i <= variables.len(),
                all == pairs_view(variables@),
                tree@ == env_model(self@, all.take(i as int)),
                tree@ is Object,
            decreases variables.len() - i,
        {
            proof {
                assert(all.take(i + 1).drop_last() =~= all.take(i as int));
                assert(all.take(i + 1).last() == (variables[i as int].0@, variables[i as int].1@));
            }
            tree = self.absorb(tree, variables[i].0.as_str(), variables[i].1.as_str());
            i = i + 1;
        }
        assert(all.take(variables.len() as int) =~= all);
        tree
    }
}

impl Default for Env {
    fn default() -> (env: Env)
        ensures
            env@.prefix == Seq::<char>::empty(),
            env@.delimiter == "__"@,
    {
        Env::new()
    }
}

} // verus!
