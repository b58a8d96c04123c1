use vstd::prelude::*;
use crate::text::{split_ws, split_whitespace, views_of_strings, str_eq};

verus! {

broadcast use vstd::string::group_string_axioms;

pub open spec fn names_distinct<V>(e: Seq<(String, V)>) -> bool {
    forall|i: int, j: int| 0 <= i < j < e.len() ==> #[trigger] e[i].0@ != #[trigger] e[j].0@
}

pub open spec fn has_name_at<V>(e: Seq<(String, V)>, k: Seq<char>, i: int) -> bool {
    0 <= i < e.len() && e[i].0@ == k
}

/// The map that a list of (name, value) pairs with distinct names stands for.
pub open spec fn pairs_map<V: View>(e: Seq<(String, V)>) -> Map<Seq<char>, V::V> {
    Map::new(
        |k: Seq<char>| exists|i: int| has_name_at(e, k, i),
        |k: Seq<char>| e[choose|i: int| has_name_at(e, k, i)].1@,
    )
}

proof fn lemma_pairs_lookup<V: View>(e: Seq<(String, V)>, i: int)
    requires
        names_distinct(e),
        0 <= i < e.len(),
    ensures
        pairs_map(e).contains_key(e[i].0@),
        pairs_map(e)[e[i].0@] == e[i].1@,
{
    assert(has_name_at(e, e[i].0@, i));
    let j = choose|j: int| has_name_at(e, e[i].0@, j);
    if j != i {
        if j < i {
            assert(e[j].0@ != e[i].0@);
        } else {
            assert(e[i].0@ != e[j].0@);
        }
    }
}

proof fn lemma_pairs_set<V: View>(e: Seq<(String, V)>, i: int, p: (String, V))
    requires
        names_distinct(e),
        0 <= i < e.len(),
        e[i].0@ == p.0@,
    ensures
        names_distinct(e.update(i, p)),
        pairs_map(e.update(i, p)) == pairs_map(e).insert(p.0@, p.1@),
{
    let f = e.update(i, p);
    assert forall|a: int| 0 <= a < e.len() implies #[trigger] f[a].0@ == e[a].0@ by {}
    assert(names_distinct(f)) by {
        assert forall|a: int, b: int| 0 <= a < b < f.len() implies #[trigger] f[a].0@ != #[trigger] f[b].0@ by {
            assert(f[a].0@ == e[a].0@);
            assert(f[b].0@ == e[b].0@);
        }
    }
    assert forall|k: Seq<char>| pairs_map(f).contains_key(k) <==> #[trigger] pairs_map(e).insert(p.0@, p.1@).contains_key(k) by {
        if pairs_map(e).contains_key(k) {
            let j = choose|j: int| has_name_at(e, k, j);
            assert(has_name_at(f, k, j));
        }
        if pairs_map(f).contains_key(k) {
            let j = choose|j: int| has_name_at(f, k, j);
            assert(has_name_at(e, k, j));
        }
        if k == p.0@ {
            assert(has_name_at(f, k, i));
        }
    }
    assert forall|k: Seq<char>| #[trigger] pairs_map(f).contains_key(k) implies pairs_map(f)[k] == pairs_map(e).insert(p.0@, p.1@)[k] by {
        let j = choose|j: int| has_name_at(f, k, j);
        lemma_pairs_lookup(f, j);
        if j != i {
            lemma_pairs_lookup(e, j);
        }
    }
    assert(pairs_map(f) =~= pairs_map(e).insert(p.0@, p.1@));
}

proof fn lemma_pairs_push<V: View>(e: Seq<(String, V)>, p: (String, V))
    requires
        names_distinct(e),
        !pairs_map(e).contains_key(p.0@),
    ensures
        names_distinct(e.push(p)),
        pairs_map(e.push(p)) == pairs_map(e).insert(p.0@, p.1@),
{
    let f = e.push(p);
    assert(names_distinct(f)) by {
        assert forall|a: int, b: int| 0 <= a < b < f.len() implies #[trigger] f[a].0@ != #[trigger] f[b].0@ by {
            if b == e.len() {
                assert(!has_name_at(e, p.0@, a));
            } else {
                assert(f[a] == e[a] && f[b] == e[b]);
            }
        }
    }
    assert forall|k: Seq<char>| pairs_map(f).contains_key(k) <==> #[trigger] pairs_map(e).insert(p.0@, p.1@).contains_key(k) by {
        if pairs_map(e).contains_key(k) {
            let j = choose|j: int| has_name_at(e, k, j);
            assert(has_name_at(f, k, j));
        }
        if pairs_map(f).contains_key(k) {
            let j = choose|j: int| has_name_at(f, k, j);
            if j < e.len() {
                assert(has_name_at(e, k, j));
            }
        }
        if k == p.0@ {
            assert(has_name_at(f, k, e.len() as int));
        }
    }
    assert forall|k: Seq<char>| #[trigger] pairs_map(f).contains_key(k) implies pairs_map(f)[k] == pairs_map(e).insert(p.0@, p.1@)[k] by {
        let j = choose|j: int| has_name_at(f, k, j);
        lemma_pairs_lookup(f, j);
        if j < e.len() {
            assert(f[j] == e[j]);
            lemma_pairs_lookup(e, j);
        }
    }
    assert(pairs_map(f) =~= pairs_map(e).insert(p.0@, p.1@));
}

/// A map from names to values, each name present at most once. Two maps
/// are equal when they hold the same names with the same values, whatever
/// the order the names were added in.
#[derive(Debug)]
pub struct NameMap<V> {
    entries: Vec<(String, V)>,
}

/// An element's attributes: attribute name to value.
pub type Attributes = NameMap<String>;

impl<V> NameMap<V> {
    #[verifier::type_invariant]
    spec fn inv(&self) -> bool {
        names_distinct(self.entries@)
    }
}

impl<V: View> NameMap<V> {
    pub closed spec fn spec_map(&self) -> Map<Seq<char>, V::V> {
        pairs_map(self.entries@)
    }

    /// An empty map.
    pub fn new() -> (a: NameMap<V>)
        ensures
            a@ == Map::<Seq<char>, V::V>::empty(),
    {
        let a = NameMap { entries: Vec::new() };
        assert(a.spec_map() =~= Map::<Seq<char>, V::V>::empty());
        a
    }

    fn find(&self, key: &str) -> (r: Option<usize>)
        ensures
            match r {
                Some(i) => has_name_at(self.entries@, key@, i as int),
                None => !self@.contains_key(key@),
            },
    {
        let mut i: usize = 0;
        while i < self.entries.len()
            invariant
                i <= self.entries@.len(),
                forall|j: int| 0 <= j < i ==> self.entries@[j].0@ != key@,
            decreases self.entries@.len() - i,
        {
            if str_eq(self.entries[i].0.as_str(), key) {
                return Some(i);
            }
            i = i + 1;
        }
        None
    }

    /// The value stored under `key`, if any.
    pub fn get(&self, key: &str) -> (r: Option<&V>)
        ensures
            match r {
                Some(v) => self@.contains_key(key@) && self@[key@] == v@,
                None => !self@.contains_key(key@),
            },
    {
        proof { use_type_invariant(self); }
        match self.find(key) {
            Some(i) => {
                proof { lemma_pairs_lookup(self.entries@, i as int); }
                Some(&self.entries[i].1)
            },
            None => None,
        }
    }

    /// Stores `value` under `key`, replacing any earlier value.
    pub fn insert(&mut self, key: String, value: V)
        ensures
            final(self)@ == old(self)@.insert(key@, value@),
    {
        proof { use_type_invariant(&*self); }
        let found = self.find(key.as_str());
        let mut entries: Vec<(String, V)> = Vec::new();
        std::mem::swap(&mut entries, &mut self.entries);
        let ghost old_entries = entries@;
        let ghost pair = (key, value);
        match found {
            Some(i) => {
                entries.set(i, (key, value));
                proof { lemma_pairs_set(old_entries, i as int, pair); }
            },
            None => {
                entries.push((key, value));
                proof { lemma_pairs_push(old_entries, pair); }
            },
        }
        self.entries = entries;
    }
}

impl NameMap<String> {
    /// A copy with the same names and values.
    pub fn duplicate(&self) -> (r: NameMap<String>)
        ensures
            r@ == self@,
    {
        proof { use_type_invariant(self); }
        let mut entries: Vec<(String, String)> = Vec::new();
        let mut i: usize = 0;
        while i < self.entries.len()
            invariant
                i <= self.entries@.len(),
                entries@ == self.entries@.take(i as int),
            decreases self.entries@.len() - i,
        {
            let k = self.entries[i].0.clone();
            let v = self.entries[i].1.clone();
            entries.push((k, v));
            i = i + 1;
            assert(entries@ =~= self.entries@.take(i as int));
        }
        assert(entries@ =~= self.entries@);
        NameMap { entries }
    }
}

impl Clone for NameMap<String> {
    fn clone(&self) -> (r: NameMap<String>)
        ensures
            r@ == self@,
    {
        self.duplicate()
    }
}

impl NameMap<String> {
    /// Whether every name of `other` is in `self` with the same value.
    fn includes(&self, other: &NameMap<String>) -> (r: bool)
        ensures
            r == (forall|k: Seq<char>| #[trigger] other@.contains_key(k)
                ==> self@.contains_key(k) && self@[k] == other@[k]),
    {
        proof {
            use_type_invariant(self);
            use_type_invariant(other);
        }
        let mut i: usize = 0;
        while i < other.entries.len()
            invariant
                i <= other.entries@.len(),
                names_distinct(other.entries@),
                forall|j: int| 0 <= j < i ==> #[trigger] self@.contains_key(other.entries@[j].0@)
                    && self@[other.entries@[j].0@] == other.entries@[j].1@,
            decreases other.entries@.len() - i,
        {
            let ghost k = other.entries@[i as int].0@;
            proof { lemma_pairs_lookup(other.entries@, i as int); }
            match self.get(other.entries[i].0.as_str()) {
                Some(v) => {
                    if !str_eq(v.as_str(), other.entries[i].1.as_str()) {
                        assert(other@.contains_key(k));
                        return false;
                    }
                },
                None => {
                    assert(other@.contains_key(k));
                    return false;
                },
            }
            i = i + 1;
        }
        assert forall|k: Seq<char>| #[trigger] other@.contains_key(k) implies self@.contains_key(k) && self@[k] == other@[k] by {
            let j = choose|j: int| has_name_at(other.entries@, k, j);
            lemma_pairs_lookup(other.entries@, j);
            assert(self@.contains_key(other.entries@[j].0@));
        }
        true
    }
}

impl PartialEq for NameMap<String> {
    fn eq(&self, other: &NameMap<String>) -> (r: bool) {
        let r = self.includes(other) && other.includes(self);
        proof {
            if r {
                assert(self@ =~= other@);
            }
        }
        r
    }
}

impl vstd::std_specs::cmp::PartialEqSpecImpl for NameMap<String> {
    open spec fn obeys_eq_spec() -> bool {
        true
    }

    open spec fn eq_spec(&self, other: &NameMap<String>) -> bool {
        self@ == other@
    }
}

impl<V: View> View for NameMap<V> {
    type V = Map<Seq<char>, V::V>;

    open spec fn view(&self) -> Map<Seq<char>, V::V> {
        self.spec_map()
    }
}

} // verus!

verus! {

/// A single node in the DOM tree: an element (tag name, attributes,
/// children), a text run, or a comment.
#[derive(Debug, PartialEq)]
pub enum Node {
    Element(ElementData),
    Text(String),
    Comment(String),
}

#[derive(Debug, PartialEq)]
pub struct ElementData {
    pub tag_name: String,
    pub attributes: Attributes,
    pub children: Vec<Node>,
}

/// The mathematical value of a DOM node.
pub enum NodeView {
    Element(ElementView),
    Text(Seq<char>),
    Comment(Seq<char>),
}

pub struct ElementView {
    pub tag: Seq<char>,
    pub attrs: Map<Seq<char>, Seq<char>>,
    pub children: Seq<NodeView>,
}

pub open spec fn node_view(n: Node) -> NodeView
    decreases n, 1nat,
{
    match n {
        Node::Element(e) => NodeView::Element(element_view(e)),
        Node::Text(t) => NodeView::Text(t@),
        Node::Comment(t) => NodeView::Comment(t@),
    }
}

pub open spec fn element_view(e: ElementData) -> ElementView
    decreases e, 0nat,
{
    ElementView {
        tag: e.tag_name@,
        attrs: e.attributes@,
        children: nodes_view(e.children@),
    }
}

pub open spec fn nodes_view(s: Seq<Node>) -> Seq<NodeView>
    decreases s, 0nat,
{
    if s.len() == 0 {
        seq![]
    } else {
        nodes_view(s.drop_last()).push(node_view(s.last()))
    }
}

impl View for Node {
    type V = NodeView;

    open spec fn view(&self) -> NodeView {
        node_view(*self)
    }
}

impl View for ElementData {
    type V = ElementView;

    open spec fn view(&self) -> ElementView {
        element_view(*self)
    }
}


impl Node {
    /// A deep copy of the node and everything below it.
    pub fn deep_clone(&self) -> (r: Node)
        ensures
            r@ == self@,
        decreases self,
    {
        match self {
            Node::Element(e) => Node::Element(e.deep_clone()),
            Node::Text(t) => Node::Text(t.clone()),
            Node::Comment(t) => Node::Comment(t.clone()),
        }
    }
}

impl ElementData {
    /// A deep copy of the element and everything below it.
    pub fn deep_clone(&self) -> (r: ElementData)
        ensures
            r@ == self@,
        decreases self,
    {
        let mut children: Vec<Node> = Vec::new();
        let mut i: usize = 0;
        while i < self.children.len()
            invariant
                i <= self.children@.len(),
                nodes_view(children@) == nodes_view(self.children@.take(i as int)),
            decreases self.children@.len() - i,
        {
            proof {
                assert(decreases_to!(*self => self.children));
                assert(decreases_to!(self.children => self.children@[i as int]));
            }
            let c = self.children[i].deep_clone();
            let ghost before = children@;
            children.push(c);
            proof {
                assert(children@.drop_last() =~= before);
                assert(self.children@.take(i + 1).drop_last() =~= self.children@.take(i as int));
                assert(nodes_view(children@) == nodes_view(before).push(node_view(c)));
            }
            i = i + 1;
        }
        assert(self.children@.take(i as int) =~= self.children@);
        ElementData { tag_name: self.tag_name.clone(), attributes: self.attributes.duplicate(), children }
    }
}

impl Clone for Node {
    fn clone(&self) -> (r: Node)
        ensures
            r@ == self@,
    {
        self.deep_clone()
    }
}

impl Clone for ElementData {
    fn clone(&self) -> (r: ElementData)
        ensures
            r@ == self@,
    {
        self.deep_clone()
    }
}


pub open spec fn spec_class_list(attrs: Map<Seq<char>, Seq<char>>) -> Seq<Seq<char>> {
    if attrs.contains_key("class"@) {
        split_ws(attrs["class"@])
    } else {
        seq![]
    }
}

impl ElementData {
    pub fn new(tag_name: String, attributes: Attributes) -> (e: ElementData)
        ensures
            e@.tag == tag_name@,
            e@.attrs == attributes@,
            e@.children == Seq::<NodeView>::empty(),
    {
        let e = ElementData { tag_name, attributes, children: Vec::new() };
        assert(nodes_view(e.children@) =~= Seq::<NodeView>::empty());
        e
    }

    /// The value of the `id` attribute, if there is one.
    pub fn id(&self) -> (r: Option<&str>)
        ensures
            match r {
                Some(v) => self.attributes@.contains_key("id"@) && v@ == self.attributes@["id"@],
                None => !self.attributes@.contains_key("id"@),
            },
    {
        match self.attributes.get("id") {
            Some(v) => Some(v.as_str()),
            None => None,
        }
    }

    /// The whitespace-separated words of the `class` attribute.
    pub fn classes(&self) -> (r: Vec<String>)
        ensures
            views_of_strings(r@) == spec_class_list(self.attributes@),
    {
        match self.attributes.get("class") {
            Some(v) => split_whitespace(v.as_str()),
            None => {
                let r: Vec<String> = Vec::new();
                assert(views_of_strings(r@) =~= Seq::<Seq<char>>::empty());
                r
            },
        }
    }

    /// Whether `name` is one of the element's classes.
    pub fn has_class(&self, name: &str) -> (b: bool)
        ensures
            b == spec_class_list(self.attributes@).contains(name@),
    {
        let classes = self.classes();
        let mut i: usize = 0;
        while i < classes.len()
            invariant
                i <= classes@.len(),
                views_of_strings(classes@) == spec_class_list(self.attributes@),
                forall|j: int| 0 <= j < i ==> classes@[j]@ != name@,
            decreases classes@.len() - i,
        {
            if str_eq(classes[i].as_str(), name) {
                assert(views_of_strings(classes@)[i as int] == name@);
                return true;
            }
            i = i + 1;
        }
        proof {
            if spec_class_list(self.attributes@).contains(name@) {
                let j = choose|j: int| 0 <= j < spec_class_list(self.attributes@).len()
                    && spec_class_list(self.attributes@)[j] == name@;
                assert(views_of_strings(classes@)[j] == classes@[j]@);
            }
        }
        false
    }
}

impl Node {
    /// An element node with the given tag, attributes and children.
    pub fn element(tag_name: &str, attributes: Attributes, children: Vec<Node>) -> (n: Node)
        ensures
            n@ == NodeView::Element(ElementView {
                tag: tag_name@,
                attrs: attributes@,
                children: nodes_view(children@),
            }),
    {
        let mut data = ElementData::new(tag_name.to_string(), attributes);
        data.children = children;
        Node::Element(data)
    }

    /// A text node holding `s`.
    pub fn text(s: &str) -> (n: Node)
        ensures
            n@ == NodeView::Text(s@),
    {
        Node::Text(s.to_string())
    }

    pub fn as_element(&self) -> (r: Option<&ElementData>)
        ensures
            match r {
                Some(e) => *self == Node::Element(*e),
                None => !(self is Element),
            },
    {
        match self {
            Node::Element(e) => Some(e),
            _ => None,
        }
    }

    /// The children of an element; a text or comment node has none.
    pub fn children(&self) -> (r: &[Node])
        ensures
            match self {
                Node::Element(e) => r@ == e.children@,
                _ => r@.len() == 0,
            },
    {
        match self {
            Node::Element(e) => e.children.as_slice(),
            _ => &[],
        }
    }
}

/// The HTML void elements, which never have children or a closing tag.
pub open spec fn spec_is_void_element(tag: Seq<char>) -> bool {
    ||| tag == "area"@
    ||| tag == "base"@
    ||| tag == "br"@
    ||| tag == "col"@
    ||| tag == "embed"@
    ||| tag == "hr"@
    ||| tag == "img"@
    ||| tag == "input"@
    ||| tag == "link"@
    ||| tag == "meta"@
    ||| tag == "param"@
    ||| tag == "source"@
    ||| tag == "track"@
    ||| tag == "wbr"@
}

pub fn is_void_element(tag: &str) -> (b: bool)
    ensures
        b == spec_is_void_element(tag@),
{
    str_eq(tag, "area") || str_eq(tag, "base") || str_eq(tag, "br") || str_eq(tag, "col")
        || str_eq(tag, "embed") || str_eq(tag, "hr") || str_eq(tag, "img") || str_eq(tag, "input")
        || str_eq(tag, "link") || str_eq(tag, "meta") || str_eq(tag, "param")
        || str_eq(tag, "source") || str_eq(tag, "track") || str_eq(tag, "wbr")
}

pub proof fn lemma_nodes_view(v: Seq<Node>)
    ensures
        nodes_view(v).len() == v.len(),
        forall|i: int| 0 <= i < v.len() ==> #[trigger] nodes_view(v)[i] == node_view(v[i]),
    decreases v.len(),
{
    if v.len() > 0 {
        lemma_nodes_view(v.drop_last());
        assert forall|i: int| 0 <= i < v.len() implies #[trigger] nodes_view(v)[i] == node_view(v[i]) by {
            if i < v.len() - 1 {
                assert(v.drop_last()[i] == v[i]);
            }
        }
    }
}

} // verus!
