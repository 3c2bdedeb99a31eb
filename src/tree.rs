//! The value tree shared by every resource format, the flat key/value map
//! that flattening produces, and the flattening itself.
use vstd::prelude::*;
use crate::text::{decimal, decimal_chars, string_of};

verus! {

broadcast use vstd::std_specs::vec::group_vec_axioms, vstd::seq::group_seq_axioms;

/// A parsed resource value: a finite literal tree.
pub enum ResourceValue {
    Null,
    Bool(bool),
    /// A number, kept in its canonical textual form.
    Number(String),
    Str(String),
    Array(Vec<ResourceValue>),
    /// Keyed children in document order; a later duplicate key overrides an earlier one.
    Object(Vec<(String, ResourceValue)>),
}

/// The dotted path of a child: the segment alone at the root, else `prefix.segment`.
pub open spec fn join_key(prefix: Seq<char>, segment: Seq<char>) -> Seq<char> {
    if prefix.len() == 0 {
        segment
    } else {
        prefix.push('.') + segment
    }
}

/// The text a boolean leaf is stored as.
pub open spec fn bool_text(b: bool) -> Seq<char> {
    if b { seq!['t', 'r', 'u', 'e'] } else { seq!['f', 'a', 'l', 's', 'e'] }
}

/// A leaf stored under `prefix`; a leaf at the root (empty prefix) gives no entry.
pub open spec fn leaf(prefix: Seq<char>, text: Seq<char>) -> Map<Seq<char>, Seq<char>> {
    if prefix.len() == 0 {
        Map::empty()
    } else {
        map![prefix => text]
    }
}

/// The mathematical form of a value tree: texts as character sequences.
pub enum Tree {
    Null,
    Bool(bool),
    Number(Seq<char>),
    Str(Seq<char>),
    Array(Seq<Tree>),
    Object(Seq<(Seq<char>, Tree)>),
}

/// The tree a value stands for.
pub open spec fn tree_of(v: ResourceValue) -> Tree
    decreases v,
{
    match v {
        ResourceValue::Null => Tree::Null,
        ResourceValue::Bool(b) => Tree::Bool(b),
        ResourceValue::Number(n) => Tree::Number(n@),
        ResourceValue::Str(s) => Tree::Str(s@),
        ResourceValue::Array(items) => Tree::Array(trees_of(items@)),
        ResourceValue::Object(entries) => Tree::Object(entry_trees(entries@)),
    }
}

/// The trees of a sequence of values.
pub open spec fn trees_of(s: Seq<ResourceValue>) -> Seq<Tree>
    decreases s,
{
    if s.len() == 0 {
        Seq::empty()
    } else {
        trees_of(s.take(s.len() - 1)).push(tree_of(s[s.len() - 1]))
    }
}

/// The keyed trees of a sequence of keyed values.
pub open spec fn entry_trees(s: Seq<(String, ResourceValue)>) -> Seq<(Seq<char>, Tree)>
    decreases s,
{
    if s.len() == 0 {
        Seq::empty()
    } else {
        entry_trees(s.take(s.len() - 1)).push((s[s.len() - 1].0@, tree_of(s[s.len() - 1].1)))
    }
}

proof fn lemma_trees_of_len(s: Seq<ResourceValue>)
    ensures
        trees_of(s).len() == s.len(),
    decreases s.len(),
{
    if s.len() > 0 {
        lemma_trees_of_len(s.take(s.len() - 1));
    }
}

proof fn lemma_entry_trees_len(s: Seq<(String, ResourceValue)>)
    ensures
        entry_trees(s).len() == s.len(),
    decreases s.len(),
{
    if s.len() > 0 {
        lemma_entry_trees_len(s.take(s.len() - 1));
    }
}

/// The entries that `t`, placed at path `prefix`, flattens to.
pub open spec fn flat(t: Tree, prefix: Seq<char>) -> Map<Seq<char>, Seq<char>>
    decreases t,
{
    match t {
        Tree::Null => Map::empty(),
        Tree::Bool(b) => leaf(prefix, bool_text(b)),
        Tree::Number(n) => leaf(prefix, n),
        Tree::Str(s) => leaf(prefix, s),
        Tree::Array(items) => flat_items(items, prefix),
        Tree::Object(entries) => flat_entries(entries, prefix),
    }
}

/// The entries of a sequence of array elements under `prefix`, each at its index.
pub open spec fn flat_items(items: Seq<Tree>, prefix: Seq<char>) -> Map<Seq<char>, Seq<char>>
    decreases items,
{
    if items.len() == 0 {
        Map::empty()
    } else {
        let n = (items.len() - 1) as nat;
        flat_items(items.take(n as int), prefix).union_prefer_right(
            flat(items[n as int], join_key(prefix, decimal(n))),
        )
    }
}

/// The entries of keyed children under `prefix`; later children override earlier ones.
pub open spec fn flat_entries(entries: Seq<(Seq<char>, Tree)>, prefix: Seq<char>) -> Map<
    Seq<char>,
    Seq<char>,
>
    decreases entries,
{
    if entries.len() == 0 {
        Map::empty()
    } else {
        let n = entries.len() - 1;
        flat_entries(entries.take(n), prefix).union_prefer_right(
            flat(entries[n].1, join_key(prefix, entries[n].0)),
        )
    }
}

/// The map of a sequence of key/value pairs, a later pair overriding an earlier one.
pub open spec fn pairs_map(s: Seq<(String, String)>) -> Map<Seq<char>, Seq<char>>
    decreases s.len(),
{
    if s.len() == 0 {
        Map::empty()
    } else {
        pairs_map(s.drop_last()).insert(s.last().0@, s.last().1@)
    }
}

/// Whether no key occurs twice in `s`.
pub open spec fn keys_unique(s: Seq<(String, String)>) -> bool {
    forall|i: int, j: int| 0 <= i < j < s.len() ==> s[i].0@ != s[j].0@
}

proof fn lemma_pairs_map_dom(s: Seq<(String, String)>, k: Seq<char>)
    ensures
        pairs_map(s).contains_key(k) <==> exists|i: int| 0 <= i < s.len() && s[i].0@ == k,
    decreases s.len(),
{
    if s.len() > 0 {
        lemma_pairs_map_dom(s.drop_last(), k);
        if pairs_map(s).contains_key(k) && s.last().0@ != k {
            let i = choose|i: int| 0 <= i < s.len() - 1 && s.drop_last()[i].0@ == k;
            assert(s[i].0@ == k);
        }
        if exists|i: int| 0 <= i < s.len() && s[i].0@ == k {
            let i = choose|i: int| 0 <= i < s.len() && s[i].0@ == k;
            if i < s.len() - 1 {
                assert(s.drop_last()[i].0@ == k);
            }
        }
    }
}

proof fn lemma_pairs_map_at(s: Seq<(String, String)>, i: int)
    requires
        keys_unique(s),
        0 <= i < s.len(),
    ensures
        pairs_map(s).contains_key(s[i].0@),
        pairs_map(s)[s[i].0@] == s[i].1@,
    decreases s.len(),
{
    if i < s.len() - 1 {
        lemma_pairs_map_at(s.drop_last(), i);
    }
}

proof fn lemma_pairs_map_update(s: Seq<(String, String)>, i: int, p: (String, String))
    requires
        keys_unique(s),
        0 <= i < s.len(),
        p.0@ == s[i].0@,
    ensures
        pairs_map(s.update(i, p)) == pairs_map(s).insert(p.0@, p.1@),
        keys_unique(s.update(i, p)),
    decreases s.len(),
{
    let t = s.update(i, p);
    if i == s.len() - 1 {
        assert(t.drop_last() =~= s.drop_last());
        lemma_pairs_map_dom(s.drop_last(), p.0@);
        assert(pairs_map(t) =~= pairs_map(s).insert(p.0@, p.1@));
    } else {
        lemma_pairs_map_update(s.drop_last(), i, p);
        assert(t.drop_last() =~= s.drop_last().update(i, p));
        assert(pairs_map(t) =~= pairs_map(s).insert(p.0@, p.1@));
    }
}

/// A flat translation table: dotted keys to texts, each key at most once,
/// in the order the keys were first inserted.
pub struct Translations {
    entries: Vec<(String, String)>,
}

impl View for Translations {
    type V = Map<Seq<char>, Seq<char>>;

    closed spec fn view(&self) -> Map<Seq<char>, Seq<char>> {
        pairs_map(self.entries@)
    }
}

impl Translations {
    /// The table's pairs in insertion order.
    pub closed spec fn pairs(&self) -> Seq<(String, String)> {
        self.entries@
    }

    pub closed spec fn wf(&self) -> bool {
        keys_unique(self.entries@)
    }

    /// The table is the map of its pairs.
    pub proof fn lemma_view_is_pairs_map(&self)
        ensures
            self@ == pairs_map(self.pairs()),
    {
    }

    pub proof fn lemma_view_pairs(&self)
        requires
            self.wf(),
        ensures
            forall|i: int| #![auto] 0 <= i < self.pairs().len() ==> self@.contains_key(self.pairs()[i].0@)
                && self@[self.pairs()[i].0@] == self.pairs()[i].1@,
            forall|k: Seq<char>| #![auto] self@.contains_key(k) ==> exists|i: int|
                0 <= i < self.pairs().len() && self.pairs()[i].0@ == k,
            keys_unique(self.pairs()),
    {
        assert forall|i: int| #![auto] 0 <= i < self.pairs().len() implies self@.contains_key(
            self.pairs()[i].0@,
        ) && self@[self.pairs()[i].0@] == self.pairs()[i].1@ by {
            lemma_pairs_map_at(self.entries@, i);
        }
        assert forall|k: Seq<char>| #![auto] self@.contains_key(k) implies exists|i: int|
            0 <= i < self.pairs().len() && self.pairs()[i].0@ == k by {
            lemma_pairs_map_dom(self.entries@, k);
            let i = choose|i: int| 0 <= i < self.entries@.len() && self.entries@[i].0@ == k;
            assert(self.pairs()[i].0@ == k);
        }
    }

    /// An empty table.
    pub fn new() -> (r: Translations)
        ensures
            r.wf(),
            r@ == Map::<Seq<char>, Seq<char>>::empty(),
    {
        Translations { entries: Vec::new() }
    }

    /// The number of keys.
    pub fn len(&self) -> (r: usize)
        requires
            self.wf(),
        ensures
            r == self@.len(),
    {
        proof {
            self.lemma_len();
        }
        self.entries.len()
    }

    proof fn lemma_len(&self)
        requires
            self.wf(),
        ensures
            self@.len() == self.entries@.len(),
            self@.dom().finite(),
    {
        lemma_pairs_map_len(self.entries@);
    }

    /// Whether the table has no keys.
    pub fn is_empty(&self) -> (r: bool)
        requires
            self.wf(),
        ensures
            r == (self@.len() == 0),
    {
        self.len() == 0
    }

    /// The position of `key` among the pairs, if present.
    fn position(&self, key: &str) -> (r: Option<usize>)
        requires
            self.wf(),
        ensures
            match r {
                Some(i) => i < self.entries@.len() && self.entries@[i as int].0@ == key@,
                None => !self@.contains_key(key@),
            },
    {
        let mut i: usize = 0;
        while i < self.entries.len()
            invariant
                forall|j: int| 0 <= j < i ==> self.entries@[j].0@ != key@,
            decreases self.entries.len() - i,
        {
            if crate::text::same_text(&self.entries[i].0, key) {
                return Some(i);
            }
            i += 1;
        }
        proof {
            lemma_pairs_map_dom(self.entries@, key@);
        }
        None
    }

    /// The text stored under `key`.
    pub fn get(&self, key: &str) -> (r: Option<&String>)
        requires
            self.wf(),
        ensures
            match r {
                Some(v) => self@.contains_key(key@) && self@[key@] == v@,
                None => !self@.contains_key(key@),
            },
    {
        match self.position(key) {
            Some(i) => {
                proof {
                    lemma_pairs_map_at(self.entries@, i as int);
                }
                Some(&self.entries[i].1)
            },
            None => None,
        }
    }

    /// Whether `key` is present.
    pub fn contains_key(&self, key: &str) -> (r: bool)
        requires
            self.wf(),
        ensures
            r == self@.contains_key(key@),
    {
        self.get(key).is_some()
    }

    /// Stores `value` under `key`, replacing any earlier text for that key.
    pub fn insert(&mut self, key: String, value: String)
        requires
            old(self).wf(),
        ensures
            final(self).wf(),
            final(self)@ == old(self)@.insert(key@, value@),
    {
        match self.position(key.as_str()) {
            Some(i) => {
                let ghost k = key@;
                let ghost v = value@;
                proof {
                    lemma_pairs_map_update(self.entries@, i as int, (key, value));
                }
                self.entries.set(i, (key, value));
            },
            None => {
                proof {
                    assert forall|i: int, j: int|
                        0 <= i < j < self.entries@.len() + 1 implies #[trigger] self.entries@.push(
                        (key, value),
                    )[i].0@ != #[trigger] self.entries@.push((key, value))[j].0@ by {
                        if j == self.entries@.len() {
                            lemma_pairs_map_dom(self.entries@, key@);
                        }
                    }
                }
                let ghost before = self.entries@;
                self.entries.push((key, value));
                assert(self.entries@.drop_last() =~= before);
            },
        }
    }

    /// The pair at position `i` in insertion order.
    pub fn pair_at(&self, i: usize) -> (r: (&String, &String))
        requires
            i < self.pairs().len(),
        ensures
            r.0 == self.pairs()[i as int].0,
            r.1 == self.pairs()[i as int].1,
    {
        (&self.entries[i].0, &self.entries[i].1)
    }

    /// The number of pairs, for walking them with `pair_at`.
    pub fn pair_count(&self) -> (r: usize)
        ensures
            r == self.pairs().len(),
    {
        self.entries.len()
    }
}

proof fn lemma_pairs_map_len(s: Seq<(String, String)>)
    requires
        keys_unique(s),
    ensures
        pairs_map(s).len() == s.len(),
        pairs_map(s).dom().finite(),
    decreases s.len(),
{
    if s.len() > 0 {
        lemma_pairs_map_len(s.drop_last());
        lemma_pairs_map_dom(s.drop_last(), s.last().0@);
        if pairs_map(s.drop_last()).contains_key(s.last().0@) {
            let i = choose|i: int| 0 <= i < s.len() - 1 && s.drop_last()[i].0@ == s.last().0@;
            assert(s[i].0@ == s[s.len() - 1].0@);
        }
    }
}

fn join_chars(prefix: &Vec<char>, segment: &Vec<char>) -> (r: Vec<char>)
    ensures
        r@ == join_key(prefix@, segment@),
{
    let mut r: Vec<char> = Vec::new();
    if prefix.len() == 0 {
        let mut i: usize = 0;
        while i < segment.len()
            invariant
                i <= segment.len(),
                r@ == segment@.take(i as int),
            decreases segment.len() - i,
        {
            r.push(segment[i]);
            i += 1;
            assert(r@ =~= segment@.take(i as int));
        }
        assert(r@ =~= segment@);
        r
    } else {
        let mut r = prefix.clone();
        assert(r@ =~= prefix@);
        r.push('.');
        let ghost base = r@;
        let mut i: usize = 0;
        while i < segment.len()
            invariant
                i <= segment.len(),
                r@ == base + segment@.take(i as int),
            decreases segment.len() - i,
        {
            r.push(segment[i]);
            i += 1;
            assert(r@ =~= base + segment@.take(i as int));
        }
        assert(segment@.take(segment@.len() as int) =~= segment@);
        r
    }
}

fn bool_chars(b: bool) -> (r: Vec<char>)
    ensures
        r@ == bool_text(b),
{
    let r = if b {
        vec!['t', 'r', 'u', 'e']
    } else {
        vec!['f', 'a', 'l', 's', 'e']
    };
    assert(r@ =~= bool_text(b));
    r
}

fn insert_leaf(prefix: &Vec<char>, text: String, out: &mut Translations)
    requires
        old(out).wf(),
    ensures
        final(out).wf(),
        final(out)@ == old(out)@.union_prefer_right(leaf(prefix@, text@)),
{
    if prefix.len() == 0 {
        assert(old(out)@.union_prefer_right(leaf(prefix@, text@)) =~= old(out)@);
    } else {
        let ghost t = text@;
        out.insert(string_of(prefix), text);
        assert(old(out)@.insert(prefix@, t) =~= old(out)@.union_prefer_right(leaf(prefix@, t)));
    }
}

/// Adds the entries of `v`, placed at path `prefix`, to `out`; they replace
/// earlier texts under the same keys.
pub fn flatten_into(v: &ResourceValue, prefix: &Vec<char>, out: &mut Translations)
    requires
        old(out).wf(),
    ensures
        final(out).wf(),
        final(out)@ == old(out)@.union_prefer_right(flat(tree_of(*v), prefix@)),
    decreases v,
{
    match v {
        ResourceValue::Null => {
            assert(old(out)@.union_prefer_right(flat(tree_of(*v), prefix@)) =~= old(out)@);
        },
        ResourceValue::Bool(b) => {
            insert_leaf(prefix, string_of(&bool_chars(*b)), out);
        },
        ResourceValue::Number(n) => {
            insert_leaf(prefix, n.clone(), out);
        },
        ResourceValue::Str(s) => {
            insert_leaf(prefix, s.clone(), out);
        },
        ResourceValue::Array(items) => {
            let mut i: usize = 0;
            while i < items.len()
                invariant
                    *v is Array,
                    v->Array_0 == *items,
                    i <= items.len(),
                    out.wf(),
                    out@ == old(out)@.union_prefer_right(flat_items(trees_of(items@.take(i as int)), prefix@)),
                decreases items.len() - i,
            {
                let seg = decimal_chars(i);
                let child_prefix = join_chars(prefix, &seg);
                let ghost before = out@;
                proof {
                    assert(decreases_to!(*v => v->Array_0));
                    assert(decreases_to!(*items => items[i as int]));
                    assert(decreases_to!(*v => items[i as int]));
                }
                flatten_into(&items[i], &child_prefix, out);
                proof {
                    let t = items@.take(i + 1);
                    assert(t.take(i as int) =~= items@.take(i as int));
                    assert(t[i as int] == items@[i as int]);
                    let ts = trees_of(t);
                    lemma_trees_of_len(t);
                    lemma_trees_of_len(items@.take(i as int));
                    assert(ts.take(i as int) =~= trees_of(items@.take(i as int)));
                    assert(ts[i as int] == tree_of(items@[i as int]));
                    assert(out@ =~= old(out)@.union_prefer_right(flat_items(ts, prefix@)));
                }
                i += 1;
            }
            assert(items@.take(items@.len() as int) =~= items@);
            assert(tree_of(*v) == Tree::Array(trees_of(items@)));
        },
        ResourceValue::Object(entries) => {
            let mut i: usize = 0;
            while i < entries.len()
                invariant
                    *v is Object,
                    v->Object_0 == *entries,
                    i <= entries.len(),
                    out.wf(),
                    out@ == old(out)@.union_prefer_right(
                        flat_entries(entry_trees(entries@.take(i as int)), prefix@),
                    ),
                decreases entries.len() - i,
            {
                let seg = crate::text::chars_of(entries[i].0.as_str());
                let child_prefix = join_chars(prefix, &seg);
                proof {
                    assert(decreases_to!(*v => v->Object_0));
                    assert(decreases_to!(*entries => entries[i as int]));
                    assert(decreases_to!(entries[i as int] => entries[i as int].1));
                    assert(decreases_to!(*v => entries[i as int].1));
                }
                flatten_into(&entries[i].1, &child_prefix, out);
                proof {
                    let t = entries@.take(i + 1);
                    assert(t.take(i as int) =~= entries@.take(i as int));
                    assert(t[i as int] == entries@[i as int]);
                    let ts = entry_trees(t);
                    lemma_entry_trees_len(t);
                    lemma_entry_trees_len(entries@.take(i as int));
                    assert(ts.take(i as int) =~= entry_trees(entries@.take(i as int)));
                    assert(ts[i as int] == (entries@[i as int].0@, tree_of(entries@[i as int].1)));
                    assert(out@ =~= old(out)@.union_prefer_right(flat_entries(ts, prefix@)));
                }
                i += 1;
            }
            assert(entries@.take(entries@.len() as int) =~= entries@);
            assert(tree_of(*v) == Tree::Object(entry_trees(entries@)));
        },
    }
}

/// The flat table of a whole tree, its root at the empty path.
pub fn flatten(v: &ResourceValue) -> (r: Translations)
    ensures
        r.wf(),
        r@ == flat(tree_of(*v), Seq::empty()),
{
    let mut out = Translations::new();
    let root: Vec<char> = Vec::new();
    flatten_into(v, &root, &mut out);
    assert(out@ =~= flat(tree_of(*v), Seq::empty()));
    out
}

} // verus!
