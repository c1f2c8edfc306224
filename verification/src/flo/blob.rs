use vstd::prelude::*;

use crate::nodeid::U256;

verus! {

/// The identifier of a blob.
#[derive(Debug, Clone, Copy, PartialEq, Eq, Hash)]
pub struct BlobID(pub U256);

// ---------------------------------------------------------------------------
// Maps with string keys, held as lists of pairs
// ---------------------------------------------------------------------------

/// The map that a list of pairs stands for, each value taken through `f`: a later
/// pair replaces an earlier one with the same key.
pub open spec fn pairs_map<V, W>(s: Seq<(String, V)>, f: spec_fn(V) -> W) -> Map<Seq<char>, W>
    decreases s.len(),
{
    if s.len() == 0 {
        Map::empty()
    } else {
        pairs_map(s.drop_last(), f).insert(s.last().0@, f(s.last().1))
    }
}

/// No two pairs have the same key.
pub open spec fn keys_distinct<V>(s: Seq<(String, V)>) -> bool {
    forall|i: int, j: int| 0 <= i < j < s.len() ==> (#[trigger] s[i]).0@ != (#[trigger] s[j]).0@
}

proof fn lemma_keys_distinct_prefix<V>(s: Seq<(String, V)>)
    requires
        keys_distinct(s),
        s.len() > 0,
    ensures
        keys_distinct(s.drop_last()),
        forall|i: int| 0 <= i < s.len() - 1 ==> (#[trigger] s[i]).0@ != s.last().0@,
{
    let p = s.drop_last();
    assert forall|i: int, j: int| 0 <= i < j < p.len() implies (#[trigger] p[i]).0@ != (
    #[trigger] p[j]).0@ by {
        assert(p[i] == s[i] && p[j] == s[j]);
    }
    assert forall|i: int| 0 <= i < s.len() - 1 implies (#[trigger] s[i]).0@ != s.last().0@ by {
        assert(s[i].0@ != s[s.len() - 1].0@);
    }
}

proof fn lemma_pairs_map<V, W>(s: Seq<(String, V)>, f: spec_fn(V) -> W)
    requires
        keys_distinct(s),
    ensures
        forall|k: Seq<char>| #[trigger] pairs_map(s, f).dom().contains(k) <==> exists|i: int|
            0 <= i < s.len() && (#[trigger] s[i]).0@ == k,
        forall|i: int| 0 <= i < s.len() ==> pairs_map(s, f)[(#[trigger] s[i]).0@] == f(s[i].1),
    decreases s.len(),
{
    if s.len() > 0 {
        let p = s.drop_last();
        lemma_keys_distinct_prefix(s);
        lemma_pairs_map(p, f);
        assert forall|k: Seq<char>| #[trigger] pairs_map(s, f).dom().contains(k) <==> exists|i: int|
            0 <= i < s.len() && (#[trigger] s[i]).0@ == k by {
            if pairs_map(p, f).dom().contains(k) {
                let i = choose|i: int| 0 <= i < p.len() && (#[trigger] p[i]).0@ == k;
                assert(s[i].0@ == k);
            }
            if exists|i: int| 0 <= i < s.len() && (#[trigger] s[i]).0@ == k {
                let i = choose|i: int| 0 <= i < s.len() && (#[trigger] s[i]).0@ == k;
                if i < p.len() {
                    assert(p[i].0@ == k);
                }
            }
        }
        assert forall|i: int| 0 <= i < s.len() implies pairs_map(s, f)[(#[trigger] s[i]).0@] == f(
            s[i].1,
        ) by {
            if i < p.len() {
                assert(p[i] == s[i]);
            }
        }
    }
}

proof fn lemma_pairs_map_update<V, W>(s: Seq<(String, V)>, i: int, e: (String, V), f: spec_fn(V) -> W)
    requires
        keys_distinct(s),
        0 <= i < s.len(),
        e.0@ == s[i].0@,
    ensures
        keys_distinct(s.update(i, e)),
        pairs_map(s.update(i, e), f) == pairs_map(s, f).insert(e.0@, f(e.1)),
    decreases s.len(),
{
    let t = s.update(i, e);
    assert forall|x: int, y: int| 0 <= x < y < t.len() implies (#[trigger] t[x]).0@ != (
    #[trigger] t[y]).0@ by {
        assert(t[x].0@ == s[x].0@ && t[y].0@ == s[y].0@);
    }
    lemma_keys_distinct_prefix(s);
    let p = s.drop_last();
    if i == s.len() - 1 {
        assert(t.drop_last() =~= p);
        lemma_pairs_map(p, f);
        assert(!pairs_map(p, f).dom().contains(e.0@));
        assert(pairs_map(t, f) =~= pairs_map(s, f).insert(e.0@, f(e.1)));
    } else {
        lemma_pairs_map_update(p, i, e, f);
        assert(t.drop_last() =~= p.update(i, e));
        assert(s[i].0@ != s.last().0@);
        assert(pairs_map(t, f) =~= pairs_map(s, f).insert(e.0@, f(e.1)));
    }
}

/// The index of the pair with key `k`.
pub(crate) fn find_key<V>(s: &Vec<(String, V)>, k: &String) -> (r: Option<usize>)
    ensures
        r matches Some(i) ==> i < s@.len() && s@[i as int].0@ == k@,
        r is None ==> forall|i: int| 0 <= i < s@.len() ==> (#[trigger] s@[i]).0@ != k@,
{
    let mut i: usize = 0;
    while i < s.len()
        invariant
            0 <= i <= s.len(),
            forall|j: int| 0 <= j < i ==> (#[trigger] s@[j]).0@ != k@,
        decreases s.len() - i,
    {
        if s[i].0 == *k {
            return Some(i);
        }
        i = i + 1;
    }
    None
}

/// The value of key `k`.
pub(crate) fn get_key<'a, V, W>(s: &'a Vec<(String, V)>, k: &String, Ghost(f): Ghost<spec_fn(V) -> W>) -> (r: Option<&'a V>)
    requires
        keys_distinct(s@),
    ensures
        match r {
            Some(v) => pairs_map(s@, f).dom().contains(k@) && f(*v) == pairs_map(s@, f)[k@],
            None => !pairs_map(s@, f).dom().contains(k@),
        },
{
    proof {
        lemma_pairs_map(s@, f);
    }
    match find_key(s, k) {
        Some(i) => Some(&s[i].1),
        None => None,
    }
}

/// Sets the value of key `k`.
pub(crate) fn set_key<V, W>(s: &mut Vec<(String, V)>, k: String, v: V, Ghost(f): Ghost<spec_fn(V) -> W>)
    requires
        keys_distinct(old(s)@),
    ensures
        keys_distinct(final(s)@),
        pairs_map(final(s)@, f) == pairs_map(old(s)@, f).insert(k@, f(v)),
{
    proof {
        lemma_pairs_map(s@, f);
    }
    match find_key(s, &k) {
        Some(i) => {
            proof {
                lemma_pairs_map_update(s@, i as int, (k, v), f);
            }
            s.set(i, (k, v));
        },
        None => {
            let ghost s0 = s@;
            s.push((k, v));
            proof {
                assert(s@.drop_last() =~= s0);
                assert forall|x: int, y: int| 0 <= x < y < s@.len() implies (#[trigger] s@[x]).0@
                    != (#[trigger] s@[y]).0@ by {
                    if y == s0.len() {
                        assert(s0[x].0@ != k@);
                    } else {
                        assert(s0[x] == s@[x] && s0[y] == s@[y]);
                    }
                }
            }
        },
    }
}

fn copy_ids(v: &Vec<BlobID>) -> (r: Vec<BlobID>)
    ensures
        r@ == v@,
{
    let mut r: Vec<BlobID> = Vec::new();
    let mut i: usize = 0;
    while i < v.len()
        invariant
            0 <= i <= v.len(),
            r@ == v@.take(i as int),
        decreases v.len() - i,
    {
        proof {
            assert(v@.take(i + 1) =~= v@.take(i as int).push(v@[i as int]));
        }
        r.push(v[i]);
        i = i + 1;
    }
    proof {
        assert(v@.take(v.len() as int) =~= v@);
    }
    r
}

// ---------------------------------------------------------------------------
// Blobs
// ---------------------------------------------------------------------------

/// The contents of a blob: its type, and its links, values and data by name.
pub struct BlobView {
    pub blob_type: Seq<char>,
    pub links: Map<Seq<char>, Seq<BlobID>>,
    pub values: Map<Seq<char>, Seq<char>>,
    pub datas: Map<Seq<char>, Seq<u8>>,
}

/// A blob of a type, with links to other blobs, text values and binary data, each
/// under a name.
#[derive(Debug, Clone)]
pub struct Blob {
    blob_type: String,
    links: Vec<(String, Vec<BlobID>)>,
    values: Vec<(String, String)>,
    datas: Vec<(String, Vec<u8>)>,
}

/// The view of a list of links.
pub open spec fn ids_f() -> spec_fn(Vec<BlobID>) -> Seq<BlobID> {
    |v: Vec<BlobID>| v@
}

/// The view of a text value.
pub open spec fn text_f() -> spec_fn(String) -> Seq<char> {
    |v: String| v@
}

/// The view of binary data.
pub open spec fn bytes_f() -> spec_fn(Vec<u8>) -> Seq<u8> {
    |v: Vec<u8>| v@
}

impl View for Blob {
    type V = BlobView;

    closed spec fn view(&self) -> BlobView {
        BlobView {
            blob_type: self.blob_type@,
            links: pairs_map(self.links@, ids_f()),
            values: pairs_map(self.values@, text_f()),
            datas: pairs_map(self.datas@, bytes_f()),
        }
    }
}

/// The names under which a blob keeps its parents, children and path.
pub open spec fn parents_key() -> Seq<char> {
    "parents"@
}

pub open spec fn children_key() -> Seq<char> {
    "children"@
}

pub open spec fn path_key() -> Seq<char> {
    "path"@
}

/// The links under `key`, or none.
pub open spec fn links_at(b: BlobView, key: Seq<char>) -> Seq<BlobID> {
    if b.links.dom().contains(key) {
        b.links[key]
    } else {
        Seq::empty()
    }
}

impl Blob {
    /// The keys of each map are distinct.
    pub closed spec fn wf(&self) -> bool {
        &&& keys_distinct(self.links@)
        &&& keys_distinct(self.values@)
        &&& keys_distinct(self.datas@)
    }

    pub fn new(blob_type: &str) -> (r: Self)
        ensures
            r.wf(),
            r@ == (BlobView {
                blob_type: blob_type@,
                links: Map::empty(),
                values: Map::empty(),
                datas: Map::empty(),
            }),
    {
        Blob {
            blob_type: blob_type.to_owned(),
            links: Vec::new(),
            values: Vec::new(),
            datas: Vec::new(),
        }
    }

    /// The links to other blobs, each under its name.
    pub fn links(&self) -> (r: &Vec<(String, Vec<BlobID>)>)
        ensures
            pairs_map(r@, ids_f()) == self@.links,
    {
        &self.links
    }

    /// The text values, each under its name.
    pub fn values(&self) -> (r: &Vec<(String, String)>)
        ensures
            pairs_map(r@, text_f()) == self@.values,
    {
        &self.values
    }

    /// The data, each under its name.
    pub fn datas(&self) -> (r: &Vec<(String, Vec<u8>)>)
        ensures
            pairs_map(r@, bytes_f()) == self@.datas,
    {
        &self.datas
    }

    /// The data under `key`.
    pub fn get_data(&self, key: &String) -> (r: Option<&Vec<u8>>)
        requires
            self.wf(),
        ensures
            match r {
                Some(v) => self@.datas.dom().contains(key@) && v@ == self@.datas[key@],
                None => !self@.datas.dom().contains(key@),
            },
    {
        get_key::<Vec<u8>, Seq<u8>>(&self.datas, key, Ghost(bytes_f()))
    }

    /// Sets the data under `key`.
    pub fn set_data(&mut self, key: String, value: Vec<u8>)
        requires
            old(self).wf(),
        ensures
            final(self).wf(),
            final(self)@ == (BlobView { datas: old(self)@.datas.insert(key@, value@), ..old(self)@ }),
    {
        set_key::<Vec<u8>, Seq<u8>>(&mut self.datas, key, value, Ghost(bytes_f()));
    }

    /// Sets the links under `key`.
    fn set_links(&mut self, key: String, ids: Vec<BlobID>)
        requires
            old(self).wf(),
        ensures
            final(self).wf(),
            final(self)@ == (BlobView { links: old(self)@.links.insert(key@, ids@), ..old(self)@ }),
    {
        set_key::<Vec<BlobID>, Seq<BlobID>>(&mut self.links, key, ids, Ghost(ids_f()));
    }

    /// A copy of the links under `key`, or none.
    fn get_links(&self, key: &String) -> (r: Vec<BlobID>)
        requires
            self.wf(),
        ensures
            r@ == links_at(self@, key@),
    {
        match get_key::<Vec<BlobID>, Seq<BlobID>>(&self.links, key, Ghost(ids_f())) {
            Some(v) => copy_ids(v),
            None => Vec::new(),
        }
    }

    /// Adds a link under `key`, after the links already there.
    fn add_link(&mut self, key: String, id: BlobID)
        requires
            old(self).wf(),
        ensures
            final(self).wf(),
            final(self)@ == (BlobView {
                links: old(self)@.links.insert(key@, links_at(old(self)@, key@).push(id)),
                ..old(self)@
            }),
    {
        let mut ids = self.get_links(&key);
        ids.push(id);
        self.set_links(key, ids);
    }

    pub fn set_parents(&mut self, parents: Vec<BlobID>)
        requires
            old(self).wf(),
        ensures
            final(self).wf(),
            final(self)@ == (BlobView { links: old(self)@.links.insert(parents_key(), parents@), ..old(self)@ }),
    {
        self.set_links("parents".to_owned(), parents);
    }

    pub fn add_parent(&mut self, parent: BlobID)
        requires
            old(self).wf(),
        ensures
            final(self).wf(),
            final(self)@ == (BlobView {
                links: old(self)@.links.insert(parents_key(), links_at(old(self)@, parents_key()).push(parent)),
                ..old(self)@
            }),
    {
        self.add_link("parents".to_owned(), parent);
    }

    pub fn get_parents(&self) -> (r: Vec<BlobID>)
        requires
            self.wf(),
        ensures
            r@ == links_at(self@, parents_key()),
    {
        self.get_links(&"parents".to_owned())
    }

    pub fn set_children(&mut self, children: Vec<BlobID>)
        requires
            old(self).wf(),
        ensures
            final(self).wf(),
            final(self)@ == (BlobView { links: old(self)@.links.insert(children_key(), children@), ..old(self)@ }),
    {
        self.set_links("children".to_owned(), children);
    }

    pub fn add_child(&mut self, child: BlobID)
        requires
            old(self).wf(),
        ensures
            final(self).wf(),
            final(self)@ == (BlobView {
                links: old(self)@.links.insert(children_key(), links_at(old(self)@, children_key()).push(child)),
                ..old(self)@
            }),
    {
        self.add_link("children".to_owned(), child);
    }

    pub fn get_children(&self) -> (r: Vec<BlobID>)
        requires
            self.wf(),
        ensures
            r@ == links_at(self@, children_key()),
    {
        self.get_links(&"children".to_owned())
    }

    pub fn set_path(&mut self, path: String)
        requires
            old(self).wf(),
        ensures
            final(self).wf(),
            final(self)@ == (BlobView { values: old(self)@.values.insert(path_key(), path@), ..old(self)@ }),
    {
        set_key::<String, Seq<char>>(&mut self.values, "path".to_owned(), path, Ghost(text_f()));
    }

    pub fn get_path(&self) -> (r: Option<&String>)
        requires
            self.wf(),
        ensures
            match r {
                Some(v) => self@.values.dom().contains(path_key()) && v@ == self@.values[path_key()],
                None => !self@.values.dom().contains(path_key()),
            },
    {
        get_key::<String, Seq<char>>(&self.values, &"path".to_owned(), Ghost(text_f()))
    }
}

/// A blob used as the page of a web site.
#[derive(Debug, Clone)]
pub struct BlobPage(pub Blob);

/// A blob used as a tag.
#[derive(Debug, Clone)]
pub struct BlobTag(pub Blob);

/// Access to the blob a value holds.
pub trait BlobAccess {
    spec fn blob(&self) -> Blob;

    fn get_blob(&self) -> (r: &Blob)
        ensures
            *r == self.blob(),
    ;

    fn get_blob_mut(&mut self) -> (r: &mut Blob)
        ensures
            *r == old(self).blob(),
            final(self).blob() == *final(r),
    ;

    /// The data under `key`.
    fn get_data(&self, key: &String) -> (r: Option<&Vec<u8>>)
        requires
            self.blob().wf(),
        ensures
            match r {
                Some(v) => self.blob()@.datas.dom().contains(key@) && v@ == self.blob()@.datas[key@],
                None => !self.blob()@.datas.dom().contains(key@),
            },
    {
        self.get_blob().get_data(key)
    }

    /// Sets the data under `key`.
    fn set_data(&mut self, key: String, value: Vec<u8>)
        requires
            old(self).blob().wf(),
        ensures
            final(self).blob().wf(),
            final(self).blob()@ == (BlobView {
                datas: old(self).blob()@.datas.insert(key@, value@),
                ..old(self).blob()@
            }),
    {
        self.get_blob_mut().set_data(key, value);
    }
}

/// The parents and children of a blob.
pub trait BlobFamily: BlobAccess {
    fn set_parents(&mut self, parents: Vec<BlobID>)
        requires
            old(self).blob().wf(),
        ensures
            final(self).blob().wf(),
            final(self).blob()@ == (BlobView {
                links: old(self).blob()@.links.insert(parents_key(), parents@),
                ..old(self).blob()@
            }),
    {
        self.get_blob_mut().set_parents(parents);
    }

    fn add_parent(&mut self, parent: BlobID)
        requires
            old(self).blob().wf(),
        ensures
            final(self).blob().wf(),
            final(self).blob()@ == (BlobView {
                links: old(self).blob()@.links.insert(
                    parents_key(),
                    links_at(old(self).blob()@, parents_key()).push(parent),
                ),
                ..old(self).blob()@
            }),
    {
        self.get_blob_mut().add_parent(parent);
    }

    fn get_parents(&self) -> (r: Vec<BlobID>)
        requires
            self.blob().wf(),
        ensures
            r@ == links_at(self.blob()@, parents_key()),
    {
        self.get_blob().get_parents()
    }

    fn set_children(&mut self, children: Vec<BlobID>)
        requires
            old(self).blob().wf(),
        ensures
            final(self).blob().wf(),
            final(self).blob()@ == (BlobView {
                links: old(self).blob()@.links.insert(children_key(), children@),
                ..old(self).blob()@
            }),
    {
        self.get_blob_mut().set_children(children);
    }

    fn add_child(&mut self, child: BlobID)
        requires
            old(self).blob().wf(),
        ensures
            final(self).blob().wf(),
            final(self).blob()@ == (BlobView {
                links: old(self).blob()@.links.insert(
                    children_key(),
                    links_at(old(self).blob()@, children_key()).push(child),
                ),
                ..old(self).blob()@
            }),
    {
        self.get_blob_mut().add_child(child);
    }

    fn get_children(&self) -> (r: Vec<BlobID>)
        requires
            self.blob().wf(),
        ensures
            r@ == links_at(self.blob()@, children_key()),
    {
        self.get_blob().get_children()
    }
}

/// The path of a blob.
pub trait BlobPath: BlobAccess {
    fn set_path(&mut self, path: String)
        requires
            old(self).blob().wf(),
        ensures
            final(self).blob().wf(),
            final(self).blob()@ == (BlobView {
                values: old(self).blob()@.values.insert(path_key(), path@),
                ..old(self).blob()@
            }),
    {
        self.get_blob_mut().set_path(path);
    }

    fn get_path(&self) -> (r: Option<&String>)
        requires
            self.blob().wf(),
        ensures
            match r {
                Some(v) => self.blob()@.values.dom().contains(path_key()) && v@ == self.blob()@.values[path_key()],
                None => !self.blob()@.values.dom().contains(path_key()),
            },
    {
        self.get_blob().get_path()
    }
}

/// A blob with a path and a family.
pub trait BlobPathFamily: BlobPath + BlobFamily {

}

impl BlobAccess for Blob {
    open spec fn blob(&self) -> Blob {
        *self
    }

    fn get_blob(&self) -> (r: &Blob) {
        self
    }

    fn get_blob_mut(&mut self) -> (r: &mut Blob) {
        self
    }
}

impl BlobAccess for BlobPage {
    open spec fn blob(&self) -> Blob {
        self.0
    }

    fn get_blob(&self) -> (r: &Blob) {
        &self.0
    }

    fn get_blob_mut(&mut self) -> (r: &mut Blob) {
        &mut self.0
    }
}

impl BlobAccess for BlobTag {
    open spec fn blob(&self) -> Blob {
        self.0
    }

    fn get_blob(&self) -> (r: &Blob) {
        &self.0
    }

    fn get_blob_mut(&mut self) -> (r: &mut Blob) {
        &mut self.0
    }
}

impl BlobFamily for Blob {

}

impl BlobPath for Blob {

}

impl BlobPathFamily for Blob {

}

impl BlobFamily for BlobPage {

}

impl BlobPath for BlobPage {

}

impl BlobPathFamily for BlobPage {

}

impl BlobFamily for BlobTag {

}

impl BlobPath for BlobTag {

}

impl BlobPathFamily for BlobTag {

}

} // verus!
