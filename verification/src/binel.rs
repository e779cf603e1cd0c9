use vstd::prelude::*;

verus! {

/// A value stored in an attribute of a `BinEl`. Unlike XML, attributes are
/// strongly typed. A float is kept as the bits of its IEEE-754 single
/// precision representation.
#[derive(Clone, Debug, PartialEq)]
pub enum BinElAttr {
    Bool(bool),
    Int(i32),
    Float(u32),
    Text(String),
}

/// An element of a binary map file, shaped like XML. Children are kept in
/// groups by name, each group in insertion order.
#[derive(Debug, PartialEq, Default)]
pub struct BinEl {
    /// The name of the element.
    pub name: String,
    /// The attributes, each key at most once.
    pub attributes: Vec<(String, BinElAttr)>,
    /// The children, in groups of one name each.
    pub children: Vec<(String, Vec<BinEl>)>,
}

/// A binary map file: a package name and a root element.
#[derive(Debug, PartialEq, Default)]
pub struct BinFile {
    pub package: String,
    pub root: BinEl,
}

/// The mathematical value of an attribute.
pub enum AttrV {
    Bool(bool),
    Int(i32),
    Float(u32),
    Text(Seq<char>),
}

/// The mathematical value of an element: its name, its attributes in order and
/// its children grouped by name.
pub struct ElemV {
    pub name: Seq<char>,
    pub attrs: Seq<(Seq<char>, AttrV)>,
    pub groups: Seq<(Seq<char>, Seq<ElemV>)>,
}

pub open spec fn attr_view(a: BinElAttr) -> AttrV {
    match a {
        BinElAttr::Bool(b) => AttrV::Bool(b),
        BinElAttr::Int(i) => AttrV::Int(i),
        BinElAttr::Float(f) => AttrV::Float(f),
        BinElAttr::Text(s) => AttrV::Text(s@),
    }
}

pub open spec fn attrs_view(v: Seq<(String, BinElAttr)>) -> Seq<(Seq<char>, AttrV)> {
    Seq::new(v.len(), |i: int| (v[i].0@, attr_view(v[i].1)))
}

pub open spec fn el_view(e: BinEl) -> ElemV
    decreases e, 2int,
{
    ElemV { name: e.name@, attrs: attrs_view(e.attributes@), groups: groups_view(e.children@) }
}

pub open spec fn groups_view(gs: Seq<(String, Vec<BinEl>)>) -> Seq<(Seq<char>, Seq<ElemV>)>
    decreases gs, 1int,
{
    if gs.len() == 0 {
        Seq::empty()
    } else {
        groups_view(gs.drop_last()).push((gs.last().0@, elems_view(gs.last().1@)))
    }
}

pub open spec fn elems_view(es: Seq<BinEl>) -> Seq<ElemV>
    decreases es, 0int,
{
    if es.len() == 0 {
        Seq::empty()
    } else {
        elems_view(es.drop_last()).push(el_view(es.last()))
    }
}

/// The index of the first entry with key `key`, or the length if there is none.
pub open spec fn first_key_index<V>(s: Seq<(Seq<char>, V)>, key: Seq<char>) -> int
    decreases s.len(),
{
    if s.len() == 0 {
        0
    } else if s[0].0 == key {
        0
    } else {
        1 + first_key_index(s.drop_first(), key)
    }
}

pub proof fn lemma_first_key_index<V>(s: Seq<(Seq<char>, V)>, key: Seq<char>)
    ensures
        0 <= first_key_index(s, key) <= s.len(),
        first_key_index(s, key) < s.len() ==> s[first_key_index(s, key)].0 == key,
        forall|j: int| 0 <= j < first_key_index(s, key) ==> s[j].0 != key,
    decreases s.len(),
{
    if s.len() > 0 && s[0].0 != key {
        lemma_first_key_index(s.drop_first(), key);
        assert forall|j: int| 0 <= j < first_key_index(s, key) implies s[j].0 != key by {
            if j > 0 { assert(s[j] == s.drop_first()[j - 1]); }
        }
    }
}

/// The groups after adding `child` under `key`: at the end of the first group
/// with that key, or in a new group at the end.
pub open spec fn group_insert(gs: Seq<(Seq<char>, Seq<ElemV>)>, key: Seq<char>, child: ElemV) -> Seq<(Seq<char>, Seq<ElemV>)> {
    let i = first_key_index(gs, key);
    if i < gs.len() { gs.update(i, (key, gs[i].1.push(child))) } else { gs.push((key, seq![child])) }
}

/// The attributes after setting `key` to `val`: in place if the key is there,
/// at the end otherwise.
pub open spec fn attr_insert(attrs: Seq<(Seq<char>, AttrV)>, key: Seq<char>, val: AttrV) -> Seq<(Seq<char>, AttrV)> {
    let i = first_key_index(attrs, key);
    if i < attrs.len() { attrs.update(i, (key, val)) } else { attrs.push((key, val)) }
}

/// The groups built by inserting each of `cs` in turn under its own name.
pub open spec fn regroup(cs: Seq<ElemV>) -> Seq<(Seq<char>, Seq<ElemV>)>
    decreases cs.len(),
{
    if cs.len() == 0 { Seq::empty() } else { group_insert(regroup(cs.drop_last()), cs.last().name, cs.last()) }
}

/// The attributes built by setting each of `ps` in turn.
pub open spec fn attrs_from(ps: Seq<(Seq<char>, AttrV)>) -> Seq<(Seq<char>, AttrV)>
    decreases ps.len(),
{
    if ps.len() == 0 { Seq::empty() } else { attr_insert(attrs_from(ps.drop_last()), ps.last().0, ps.last().1) }
}

/// The children of all groups of an element, group by group.
pub open spec fn flat_exec(gs: Seq<(String, Vec<BinEl>)>) -> Seq<BinEl>
    decreases gs.len(),
{
    if gs.len() == 0 { Seq::empty() } else { flat_exec(gs.drop_last()) + gs.last().1@ }
}

/// The children of all groups, group by group.
pub open spec fn flatten(gs: Seq<(Seq<char>, Seq<ElemV>)>) -> Seq<ElemV>
    decreases gs.len(),
{
    if gs.len() == 0 { Seq::empty() } else { flatten(gs.drop_last()) + gs.last().1 }
}

impl BinEl {
    /// An element with this name and nothing else.
    pub fn new(name: &str) -> (r: Self)
        ensures r.name@ == name@, r.attributes@.len() == 0, r.children@.len() == 0,
            el_view(r) == (ElemV { name: name@, attrs: Seq::empty(), groups: Seq::empty() }),
    {
        let r = BinEl { name: name.to_owned(), attributes: Vec::new(), children: Vec::new() };
        proof {
            assert(attrs_view(r.attributes@) =~= Seq::empty());
        }
        r
    }

    /// The index of the group named `key`, if any.
    fn find_group(&self, key: &String) -> (r: usize)
        ensures r as int == first_key_index(groups_view(self.children@), key@),
    {
        let ghost gv = groups_view(self.children@);
        proof { lemma_groups_view_len(self.children@); }
        let mut i: usize = 0;
        while i < self.children.len()
            invariant
                gv == groups_view(self.children@),
                gv.len() == self.children@.len(),
                i <= self.children@.len(),
                forall|j: int| 0 <= j < i ==> gv[j].0 != key@,
            decreases self.children@.len() - i,
        {
            proof { lemma_groups_view_index(self.children@, i as int); }
            if self.children[i].0 == *key {
                proof { lemma_first_index_is(gv, key@, i as int); }
                return i;
            }
            i = i + 1;
        }
        proof { lemma_first_index_is(gv, key@, i as int); }
        i
    }

    /// The children named `key`, in insertion order.
    pub fn get(&self, key: &str) -> (r: &[BinEl])
        ensures
            ({
                let gs = groups_view(self.children@);
                let i = first_key_index(gs, key@);
                elems_view(r@) == (if i < gs.len() { gs[i].1 } else { Seq::empty() })
            }),
    {
        let k = key.to_owned();
        let i = self.find_group(&k);
        proof { lemma_groups_view_len(self.children@); }
        if i < self.children.len() {
            proof { lemma_groups_view_index(self.children@, i as int); }
            self.children[i].1.as_slice()
        } else {
            let r: &[BinEl] = &[];
            proof { assert(r@ =~= Seq::<BinEl>::empty()); }
            r
        }
    }

    /// All children, group by group.
    pub fn children(&self) -> (r: Vec<&BinEl>)
        ensures
            r@.len() == flat_exec(self.children@).len(),
            forall|i: int| 0 <= i < r@.len() ==> *r@[i] == flat_exec(self.children@)[i],
    {
        let mut r: Vec<&BinEl> = Vec::new();
        let mut g: usize = 0;
        while g < self.children.len()
            invariant
                g <= self.children@.len(),
                r@.len() == flat_exec(self.children@.subrange(0, g as int)).len(),
                forall|i: int| 0 <= i < r@.len() ==> *r@[i] == flat_exec(self.children@.subrange(0, g as int))[i],
            decreases self.children@.len() - g,
        {
            let group = &self.children[g].1;
            let ghost before = r@;
            let mut j: usize = 0;
            while j < group.len()
                invariant
                    g < self.children@.len(),
                    *group == self.children@[g as int].1,
                    j <= group@.len(),
                    r@.len() == before.len() + j,
                    before.len() == flat_exec(self.children@.subrange(0, g as int)).len(),
                    forall|i: int| 0 <= i < before.len() ==> *r@[i] == flat_exec(self.children@.subrange(0, g as int))[i],
                    forall|i: int| 0 <= i < j ==> *r@[before.len() + i] == group@[i],
                decreases group@.len() - j,
            {
                r.push(&group[j]);
                j = j + 1;
            }
            proof {
                assert(self.children@.subrange(0, g + 1).drop_last() == self.children@.subrange(0, g as int));
            }
            g = g + 1;
        }
        proof { assert(self.children@.subrange(0, self.children@.len() as int) == self.children@); }
        r
    }

    /// Takes all children out, group by group, leaving none.
    pub fn drain(&mut self) -> (r: Vec<BinEl>)
        ensures
            r@ == flat_exec(old(self).children@),
            final(self).children@.len() == 0,
            final(self).name == old(self).name,
            final(self).attributes == old(self).attributes,
    {
        let mut groups: Vec<(String, Vec<BinEl>)> = Vec::new();
        std::mem::swap(&mut groups, &mut self.children);
        let ghost all = groups@;
        proof { assert(all.len() == groups.len()); }
        let mut r: Vec<BinEl> = Vec::new();
        let mut g: usize = 0;
        while groups.len() > 0
            invariant
                g + groups@.len() == all.len(), all.len() <= usize::MAX,
                groups@ == all.subrange(g as int, all.len() as int),
                r@ == flat_exec(all.subrange(0, g as int)),
            decreases groups@.len(),
        {
            let mut first = groups.remove(0);
            proof {
                assert(first == all[g as int]);
                assert(all.subrange(0, g + 1).drop_last() == all.subrange(0, g as int));
            }
            r.append(&mut first.1);
            g = g + 1;
            proof {
                assert(groups@ =~= all.subrange(g as int, all.len() as int));
            }
        }
        proof { assert(all.subrange(0, all.len() as int) == all); }
        r
    }

    /// Adds a child to the end of the group of its name.
    pub fn insert(&mut self, child: Self)
        ensures
            final(self).name == old(self).name,
            final(self).attributes == old(self).attributes,
            el_view(*final(self)).groups == group_insert(el_view(*old(self)).groups, child.name@, el_view(child)),
    {
        let ghost old_children = self.children@;
        let i = self.find_group(&child.name);
        proof { lemma_groups_view_len(self.children@); lemma_first_key_index(groups_view(self.children@), child.name@); }
        if i < self.children.len() {
            let mut g = self.children.remove(i);
            let ghost old_group = g;
            g.1.push(child);
            self.children.insert(i, g);
            proof {
                lemma_groups_view_index(old_children, i as int);
                assert(self.children@ == old_children.update(i as int, g));
                lemma_groups_view_update(old_children, i as int, g);
                assert(g.1@ == old_group.1@.push(child));
                lemma_elems_view_push(old_group.1@, child);
                assert(g.0@ == child.name@);
            }
        } else {
            let name = child.name.clone();
            let mut v: Vec<BinEl> = Vec::new();
            v.push(child);
            self.children.push((name, v));
            proof {
                assert(self.children@.drop_last() == old_children);
                lemma_elems_view_push(Seq::empty(), child);
                assert(v@ == seq![child]);
                assert(Seq::<BinEl>::empty().push(child) == seq![child]);
            }
        }
    }

    /// The value of the `innerText` attribute, when it is text.
    pub fn text(&self) -> (r: Option<&String>)
        ensures
            ({
                let attrs = el_view(*self).attrs;
                let i = first_key_index(attrs, "innerText"@);
                match r {
                    Some(t) => i < attrs.len() && attrs[i].1 == AttrV::Text(t@),
                    None => !(i < attrs.len() && attrs[i].1 is Text),
                }
            }),
    {
        let key = String::from_str("innerText");
        proof { reveal_strlit("innerText"); }
        match self.get_attr(&key) {
            Some(BinElAttr::Text(t)) => Some(t),
            _ => None,
        }
    }

    /// The attribute named `key`, if any.
    pub fn get_attr(&self, key: &String) -> (r: Option<&BinElAttr>)
        ensures
            ({
                let attrs = el_view(*self).attrs;
                let i = first_key_index(attrs, key@);
                match r {
                    Some(a) => i < attrs.len() && attrs[i].1 == attr_view(*a),
                    None => i == attrs.len(),
                }
            }),
    {
        let ghost av = attrs_view(self.attributes@);
        let mut i: usize = 0;
        while i < self.attributes.len()
            invariant
                av == attrs_view(self.attributes@),
                i <= self.attributes@.len(),
                forall|j: int| 0 <= j < i ==> av[j].0 != key@,
            decreases self.attributes@.len() - i,
        {
            if self.attributes[i].0 == *key {
                proof { lemma_first_index_is(av, key@, i as int); }
                return Some(&self.attributes[i].1);
            }
            i = i + 1;
        }
        proof { lemma_first_index_is(av, key@, i as int); }
        None
    }

    /// Sets the attribute `key` to `value`, replacing any value it had.
    pub fn set_attr(&mut self, key: String, value: BinElAttr)
        ensures
            final(self).name == old(self).name,
            final(self).children == old(self).children,
            el_view(*final(self)).attrs == attr_insert(el_view(*old(self)).attrs, key@, attr_view(value)),
    {
        let ghost av = attrs_view(self.attributes@);
        let mut i: usize = 0;
        while i < self.attributes.len()
            invariant
                av == attrs_view(self.attributes@),
                i <= self.attributes@.len(),
                self.name == old(self).name, self.children == old(self).children,
                av == attrs_view(old(self).attributes@),
                forall|j: int| 0 <= j < i ==> av[j].0 != key@,
            decreases self.attributes@.len() - i,
        {
            if self.attributes[i].0 == key {
                proof { lemma_first_index_is(av, key@, i as int); }
                self.attributes.set(i, (key, value));
                proof {
                    assert(attrs_view(self.attributes@) =~= attr_insert(av, key@, attr_view(value)));
                }
                return;
            }
            i = i + 1;
        }
        proof { lemma_first_index_is(av, key@, i as int); }
        let ghost k = key@;
        self.attributes.push((key, value));
        proof {
            assert(attrs_view(self.attributes@) =~= attr_insert(av, k, attr_view(value)));
        }
    }
}

pub proof fn lemma_first_index_is<V>(s: Seq<(Seq<char>, V)>, key: Seq<char>, i: int)
    requires
        0 <= i <= s.len(),
        forall|j: int| 0 <= j < i ==> s[j].0 != key,
        i < s.len() ==> s[i].0 == key,
    ensures first_key_index(s, key) == i,
    decreases s.len(),
{
    if s.len() > 0 && i > 0 {
        assert forall|j: int| 0 <= j < i - 1 implies s.drop_first()[j].0 != key by {
            assert(s.drop_first()[j] == s[j + 1]);
        }
        lemma_first_index_is(s.drop_first(), key, i - 1);
    }
}

pub proof fn lemma_groups_view_len(gs: Seq<(String, Vec<BinEl>)>)
    ensures groups_view(gs).len() == gs.len(),
    decreases gs.len(),
{
    if gs.len() > 0 { lemma_groups_view_len(gs.drop_last()); }
}

pub proof fn lemma_groups_view_index(gs: Seq<(String, Vec<BinEl>)>, i: int)
    requires 0 <= i < gs.len(),
    ensures groups_view(gs)[i] == (gs[i].0@, elems_view(gs[i].1@)),
    decreases gs.len(),
{
    lemma_groups_view_len(gs.drop_last());
    if i < gs.len() - 1 {
        lemma_groups_view_index(gs.drop_last(), i);
    }
}

pub proof fn lemma_groups_view_update(gs: Seq<(String, Vec<BinEl>)>, i: int, g: (String, Vec<BinEl>))
    requires 0 <= i < gs.len(),
    ensures groups_view(gs.update(i, g)) == groups_view(gs).update(i, (g.0@, elems_view(g.1@))),
    decreases gs.len(),
{
    lemma_groups_view_len(gs);
    lemma_groups_view_len(gs.update(i, g));
    if i < gs.len() - 1 {
        lemma_groups_view_update(gs.drop_last(), i, g);
        assert(gs.update(i, g).drop_last() == gs.drop_last().update(i, g));
    } else {
        assert(gs.update(i, g).drop_last() == gs.drop_last());
    }
    assert(groups_view(gs.update(i, g)) =~= groups_view(gs).update(i, (g.0@, elems_view(g.1@))));
}

pub proof fn lemma_elems_view_push(es: Seq<BinEl>, e: BinEl)
    ensures elems_view(es.push(e)) == elems_view(es).push(el_view(e)),
{
    assert(es.push(e).drop_last() == es);
}

pub proof fn lemma_elems_view_len(es: Seq<BinEl>)
    ensures elems_view(es).len() == es.len(),
    decreases es.len(),
{
    if es.len() > 0 { lemma_elems_view_len(es.drop_last()); }
}

pub proof fn lemma_elems_view_index(es: Seq<BinEl>, i: int)
    requires 0 <= i < es.len(),
    ensures elems_view(es)[i] == el_view(es[i]),
    decreases es.len(),
{
    lemma_elems_view_len(es.drop_last());
    if i < es.len() - 1 {
        lemma_elems_view_index(es.drop_last(), i);
    }
}

/// All the children of the groups, counted the same way on both sides.
pub proof fn lemma_flatten_len(gs: Seq<(String, Vec<BinEl>)>)
    ensures flatten(groups_view(gs)).len() == flat_exec(gs).len(),
    decreases gs.len(),
{
    if gs.len() > 0 {
        lemma_flatten_len(gs.drop_last());
        lemma_elems_view_len(gs.last().1@);
        let gv = groups_view(gs);
        let y = (gs.last().0@, elems_view(gs.last().1@));
        assert(gv == groups_view(gs.drop_last()).push(y));
        assert(gv.drop_last() == groups_view(gs.drop_last()));
        assert(gv.last() == y);
    }
}

pub proof fn lemma_elems_view_take(es: Seq<BinEl>, j: int)
    requires 0 <= j <= es.len(),
    ensures elems_view(es).take(j) == elems_view(es.take(j)),
{
    lemma_elems_view_len(es);
    lemma_elems_view_len(es.take(j));
    assert forall|t: int| 0 <= t < j implies #[trigger] elems_view(es).take(j)[t] == elems_view(es.take(j))[t] by {
        lemma_elems_view_index(es, t);
        lemma_elems_view_index(es.take(j), t);
    }
    assert(elems_view(es).take(j) =~= elems_view(es.take(j)));
}

pub proof fn lemma_groups_view_take(gs: Seq<(String, Vec<BinEl>)>, g: int)
    requires 0 <= g <= gs.len(),
    ensures groups_view(gs).take(g) == groups_view(gs.take(g)),
{
    lemma_groups_view_len(gs);
    lemma_groups_view_len(gs.take(g));
    assert forall|t: int| 0 <= t < g implies #[trigger] groups_view(gs).take(g)[t] == groups_view(gs.take(g))[t] by {
        lemma_groups_view_index(gs, t);
        lemma_groups_view_index(gs.take(g), t);
    }
    assert(groups_view(gs).take(g) =~= groups_view(gs.take(g)));
}

} // verus!
