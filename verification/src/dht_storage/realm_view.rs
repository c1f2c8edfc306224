use vstd::prelude::*;

use crate::flo::blob::{children_key, links_at, path_key, BlobFamily, BlobID, BlobPath};
use crate::flo::realm::RealmID;
use vstd::utf8::encode_utf8;

verus! {

/// A blob of a realm, together with the identifier it is stored under.
pub struct BlobEntry<T> {
    pub id: BlobID,
    pub blob: T,
}

/// The blobs of one realm as far as they were fetched, and the cuckoos of each blob.
/// A lookup takes the first entry with the identifier.
pub struct RealmStorage<T> {
    pub realm: RealmID,
    pub root: BlobID,
    pub storage: Vec<BlobEntry<T>>,
    pub cuckoos: Vec<(BlobID, Vec<BlobID>)>,
}

/// The index of the first entry stored under `id`.
pub open spec fn entry_index<T>(s: Seq<BlobEntry<T>>, id: BlobID) -> Option<int>
    decreases s.len(),
{
    if s.len() == 0 {
        None
    } else if s[0].id == id {
        Some(0)
    } else {
        match entry_index(s.drop_first(), id) {
            Some(i) => Some(i + 1),
            None => None,
        }
    }
}

/// The cuckoos recorded for `id`, or none.
pub open spec fn cuckoos_of(c: Seq<(BlobID, Vec<BlobID>)>, id: BlobID) -> Seq<BlobID>
    decreases c.len(),
{
    if c.len() == 0 {
        Seq::empty()
    } else if c[0].0 == id {
        c[0].1@
    } else {
        cuckoos_of(c.drop_first(), id)
    }
}

/// Each identifier, followed by its cuckoos.
pub open spec fn with_cuckoos(c: Seq<(BlobID, Vec<BlobID>)>, ids: Seq<BlobID>) -> Seq<BlobID>
    decreases ids.len(),
{
    if ids.len() == 0 {
        Seq::empty()
    } else {
        with_cuckoos(c, ids.drop_last()) + seq![ids.last()] + cuckoos_of(c, ids.last())
    }
}

/// The blob has a path, and its UTF-8 bytes are `part`.
pub open spec fn has_path<T: BlobPath>(b: T, part: Seq<u8>) -> bool {
    &&& b.blob()@.values.dom().contains(path_key())
    &&& encode_utf8(b.blob()@.values[path_key()]) == part
}

/// The index of the entry of the first identifier in `ids` that is stored and whose
/// path is `part`.
pub open spec fn first_with_path<T: BlobPath>(s: Seq<BlobEntry<T>>, ids: Seq<BlobID>, part: Seq<u8>) -> Option<int>
    decreases ids.len(),
{
    if ids.len() == 0 {
        None
    } else {
        let e = entry_index(s, ids[0]);
        if e is Some && has_path(s[e->0].blob, part) {
            e
        } else {
            first_with_path(s, ids.drop_first(), part)
        }
    }
}

/// The entry that the path `parts` leads to, starting at the blobs `curr` and their
/// cuckoos: each part names a blob among these, and the next part is looked for among
/// the children of that blob and their cuckoos.
pub open spec fn resolve<T: BlobPath>(
    s: Seq<BlobEntry<T>>,
    c: Seq<(BlobID, Vec<BlobID>)>,
    parts: Seq<Seq<u8>>,
    curr: Seq<BlobID>,
) -> Option<int>
    decreases parts.len(),
{
    if parts.len() == 0 {
        None
    } else {
        match first_with_path(s, with_cuckoos(c, curr), parts[0]) {
            None => None,
            Some(i) => if parts.len() == 1 {
                Some(i)
            } else {
                let children = links_at(s[i].blob.blob()@, children_key());
                if children.len() == 0 {
                    None
                } else {
                    resolve(s, c, parts.drop_first(), children)
                }
            },
        }
    }
}

/// The pieces of `s` between the slashes: one more than there are slashes.
pub open spec fn split_slash(s: Seq<u8>) -> Seq<Seq<u8>>
    decreases s.len(),
{
    if s.len() == 0 {
        seq![Seq::empty()]
    } else {
        let p = split_slash(s.drop_last());
        if s.last() == 47u8 {
            p.push(Seq::empty())
        } else {
            p.update(p.len() - 1, p.last().push(s.last()))
        }
    }
}

proof fn lemma_split_slash_len(s: Seq<u8>)
    ensures
        split_slash(s).len() >= 1,
    decreases s.len(),
{
    if s.len() > 0 {
        lemma_split_slash_len(s.drop_last());
    }
}

/// The entries stored for the identifiers `ids`, in their order, skipping those that
/// are not stored.
pub open spec fn stored_entries<T>(s: Seq<BlobEntry<T>>, ids: Seq<BlobID>) -> Seq<BlobEntry<T>>
    decreases ids.len(),
{
    if ids.len() == 0 {
        Seq::empty()
    } else {
        let prev = stored_entries(s, ids.drop_last());
        match entry_index(s, ids.last()) {
            Some(i) => prev.push(s[i]),
            None => prev,
        }
    }
}

/// The views of byte vectors.
pub open spec fn bytes_views(v: Seq<Vec<u8>>) -> Seq<Seq<u8>> {
    v.map_values(|x: Vec<u8>| x@)
}

/// The entries behind references.
pub open spec fn entries_of<T>(v: Seq<&BlobEntry<T>>) -> Seq<BlobEntry<T>> {
    v.map_values(|e: &BlobEntry<T>| *e)
}

/// Appends the identifiers of `v` to `r`.
fn push_ids(r: &mut Vec<BlobID>, v: &Vec<BlobID>)
    ensures
        final(r)@ == old(r)@ + v@,
{
    let ghost r0 = r@;
    let mut i: usize = 0;
    while i < v.len()
        invariant
            0 <= i <= v@.len(),
            r@ == r0 + v@.take(i as int),
        decreases v.len() - i,
    {
        proof {
            assert(v@.take(i + 1) =~= v@.take(i as int).push(v@[i as int]));
        }
        r.push(v[i]);
        i = i + 1;
    }
    proof {
        assert(v@.take(v@.len() as int) =~= v@);
    }
}

/// The byte pieces of `path` between its slashes.
fn split_path(path: &str) -> (r: Vec<Vec<u8>>)
    ensures
        bytes_views(r@) == split_slash(encode_utf8(path@)),
{
    let bytes = path.as_bytes();
    let mut parts: Vec<Vec<u8>> = Vec::new();
    let mut cur: Vec<u8> = Vec::new();
    let mut i: usize = 0;
    while i < bytes.len()
        invariant
            0 <= i <= bytes@.len(),
            bytes@ == encode_utf8(path@),
            bytes_views(parts@).push(cur@) == split_slash(bytes@.take(i as int)),
        decreases bytes.len() - i,
    {
        let ghost before = bytes_views(parts@).push(cur@);
        proof {
            assert(bytes@.take(i + 1).drop_last() =~= bytes@.take(i as int));
            lemma_split_slash_len(bytes@.take(i as int));
        }
        if bytes[i] == 47u8 {
            let done = cur;
            parts.push(done);
            cur = Vec::new();
            proof {
                assert(bytes_views(parts@).push(cur@) =~= before.push(Seq::empty()));
            }
        } else {
            cur.push(bytes[i]);
            proof {
                assert(bytes_views(parts@).push(cur@) =~= before.update(
                    before.len() - 1,
                    before.last().push(bytes@[i as int]),
                ));
            }
        }
        i = i + 1;
    }
    proof {
        assert(bytes@.take(bytes@.len() as int) =~= bytes@);
    }
    let ghost before = bytes_views(parts@);
    parts.push(cur);
    proof {
        assert(bytes_views(parts@) =~= before.push(cur@));
    }
    parts
}

/// The two byte strings are equal.
fn same_bytes(a: &[u8], b: &Vec<u8>) -> (r: bool)
    ensures
        r == (a@ == b@),
{
    if a.len() != b.len() {
        return false;
    }
    let mut i: usize = 0;
    while i < a.len()
        invariant
            0 <= i <= a@.len(),
            a@.len() == b@.len(),
            forall|j: int| 0 <= j < i ==> a@[j] == b@[j],
        decreases a.len() - i,
    {
        if a[i] != b[i] {
            return false;
        }
        i = i + 1;
    }
    proof {
        assert(a@ =~= b@);
    }
    true
}

impl<T: BlobPath + BlobFamily> RealmStorage<T> {
    /// Every stored blob is well formed.
    pub open spec fn wf(&self) -> bool {
        forall|i: int| 0 <= i < self.storage@.len() ==> (#[trigger] self.storage@[i]).blob.blob().wf()
    }

    /// The index of the first entry stored under `id`.
    fn find_entry(&self, id: &BlobID) -> (r: Option<usize>)
        ensures
            r matches Some(i) ==> i < self.storage@.len() && entry_index(self.storage@, *id) == Some(i as int),
            r is None ==> entry_index(self.storage@, *id) is None,
    {
        let mut i: usize = 0;
        proof {
            assert(self.storage@.skip(0) =~= self.storage@);
        }
        while i < self.storage.len()
            invariant
                0 <= i <= self.storage@.len(),
                entry_index(self.storage@, *id) == (match entry_index(self.storage@.skip(i as int), *id) {
                    Some(k) => Some(k + i),
                    None => None,
                }),
            decreases self.storage.len() - i,
        {
            let ghost rest = self.storage@.skip(i as int);
            proof {
                assert(rest[0] == self.storage@[i as int]);
                assert(rest.drop_first() =~= self.storage@.skip(i + 1));
            }
            if self.storage[i].id.0.same(&id.0) {
                proof {
                    assert(self.storage@[i as int].id == *id);
                }
                return Some(i);
            }
            i = i + 1;
        }
        proof {
            assert(self.storage@.skip(i as int) =~= Seq::<BlobEntry<T>>::empty());
        }
        None
    }

    /// The cuckoos recorded for `id`.
    fn cuckoo_ids(&self, id: &BlobID) -> (r: Option<&Vec<BlobID>>)
        ensures
            r matches Some(v) ==> v@ == cuckoos_of(self.cuckoos@, *id),
            r is None ==> cuckoos_of(self.cuckoos@, *id).len() == 0,
    {
        let mut i: usize = 0;
        proof {
            assert(self.cuckoos@.skip(0) =~= self.cuckoos@);
        }
        while i < self.cuckoos.len()
            invariant
                0 <= i <= self.cuckoos@.len(),
                cuckoos_of(self.cuckoos@, *id) == cuckoos_of(self.cuckoos@.skip(i as int), *id),
            decreases self.cuckoos.len() - i,
        {
            let ghost rest = self.cuckoos@.skip(i as int);
            proof {
                assert(rest[0] == self.cuckoos@[i as int]);
                assert(rest.drop_first() =~= self.cuckoos@.skip(i + 1));
            }
            if self.cuckoos[i].0.0.same(&id.0) {
                proof {
                    assert(self.cuckoos@[i as int].0 == *id);
                }
                return Some(&self.cuckoos[i].1);
            }
            i = i + 1;
        }
        proof {
            assert(self.cuckoos@.skip(i as int) =~= Seq::<(BlobID, Vec<BlobID>)>::empty());
        }
        None
    }

    /// Each identifier of `curr`, followed by its cuckoos.
    fn with_cuckoo_ids(&self, curr: &Vec<BlobID>) -> (r: Vec<BlobID>)
        ensures
            r@ == with_cuckoos(self.cuckoos@, curr@),
    {
        let mut r: Vec<BlobID> = Vec::new();
        let mut i: usize = 0;
        while i < curr.len()
            invariant
                0 <= i <= curr@.len(),
                r@ == with_cuckoos(self.cuckoos@, curr@.take(i as int)),
            decreases curr.len() - i,
        {
            proof {
                assert(curr@.take(i + 1).drop_last() =~= curr@.take(i as int));
            }
            let ghost before = r@;
            r.push(curr[i]);
            match self.cuckoo_ids(&curr[i]) {
                Some(v) => push_ids(&mut r, v),
                None => {
                    proof {
                        assert(cuckoos_of(self.cuckoos@, curr@[i as int]) =~= Seq::<BlobID>::empty());
                    }
                },
            }
            proof {
                assert(r@ =~= before + seq![curr@[i as int]] + cuckoos_of(self.cuckoos@, curr@[i as int]));
            }
            i = i + 1;
        }
        proof {
            assert(curr@.take(curr@.len() as int) =~= curr@);
        }
        r
    }

    /// The stored blob at `i` has the path `part`.
    fn path_is(&self, i: usize, part: &Vec<u8>) -> (r: bool)
        requires
            self.wf(),
            i < self.storage@.len(),
        ensures
            r == has_path(self.storage@[i as int].blob, part@),
    {
        match self.storage[i].blob.get_path() {
            Some(p) => same_bytes(p.as_str().as_bytes(), part),
            None => false,
        }
    }

    /// The index of the entry of the first identifier of `ids` that is stored with
    /// the path `part`.
    fn find_with_path(&self, ids: &Vec<BlobID>, part: &Vec<u8>) -> (r: Option<usize>)
        requires
            self.wf(),
        ensures
            r matches Some(i) ==> i < self.storage@.len() && first_with_path(self.storage@, ids@, part@) == Some(i as int),
            r is None ==> first_with_path(self.storage@, ids@, part@) is None,
    {
        let mut j: usize = 0;
        proof {
            assert(ids@.skip(0) =~= ids@);
        }
        while j < ids.len()
            invariant
                0 <= j <= ids@.len(),
                self.wf(),
                first_with_path(self.storage@, ids@, part@) == first_with_path(self.storage@, ids@.skip(j as int), part@),
            decreases ids.len() - j,
        {
            let ghost rest = ids@.skip(j as int);
            proof {
                assert(rest[0] == ids@[j as int]);
                assert(rest.drop_first() =~= ids@.skip(j + 1));
            }
            match self.find_entry(&ids[j]) {
                Some(i) => {
                    if self.path_is(i, part) {
                        return Some(i);
                    }
                },
                None => {},
            }
            j = j + 1;
        }
        proof {
            assert(ids@.skip(j as int) =~= Seq::<BlobID>::empty());
        }
        None
    }

    /// The entry that the parts from `k` on lead to, starting at the blobs `curr`.
    fn get_path_internal(&self, parts: &Vec<Vec<u8>>, k: usize, curr: Vec<BlobID>) -> (r: Option<&BlobEntry<T>>)
        requires
            self.wf(),
            k <= parts@.len(),
        ensures
            match r {
                Some(e) => resolve(self.storage@, self.cuckoos@, bytes_views(parts@).skip(k as int), curr@)
                    matches Some(i) && 0 <= i < self.storage@.len() && self.storage@[i] == *e,
                None => resolve(self.storage@, self.cuckoos@, bytes_views(parts@).skip(k as int), curr@) is None,
            },
        decreases parts@.len() - k,
    {
        let ghost pv = bytes_views(parts@).skip(k as int);
        let ids = self.with_cuckoo_ids(&curr);
        if k < parts.len() {
            proof {
                assert(pv[0] == parts@[k as int]@);
            }
            match self.find_with_path(&ids, &parts[k]) {
                Some(i) => {
                    if k + 1 == parts.len() {
                        return Some(&self.storage[i]);
                    }
                    let children = self.storage[i].blob.get_children();
                    if children.len() == 0 {
                        return None;
                    }
                    proof {
                        assert(pv.drop_first() =~= bytes_views(parts@).skip(k + 1));
                    }
                    return self.get_path_internal(parts, k + 1, children);
                },
                None => {},
            }
        }
        None
    }

    /// The blob that `path` leads to from the root: its parts between the slashes
    /// name a blob among the root and its cuckoos, then one among the children of that
    /// blob and their cuckoos, and so on.
    pub fn get_path(&self, path: &str) -> (r: Option<&BlobEntry<T>>)
        requires
            self.wf(),
        ensures
            match r {
                Some(e) => resolve(self.storage@, self.cuckoos@, split_slash(encode_utf8(path@)), seq![self.root])
                    matches Some(i) && 0 <= i < self.storage@.len() && self.storage@[i] == *e,
                None => resolve(self.storage@, self.cuckoos@, split_slash(encode_utf8(path@)), seq![self.root]) is None,
            },
    {
        let parts = split_path(path);
        let mut curr: Vec<BlobID> = Vec::new();
        curr.push(self.root);
        proof {
            assert(bytes_views(parts@).skip(0) =~= bytes_views(parts@));
            assert(curr@ =~= seq![self.root]);
        }
        self.get_path_internal(&parts, 0, curr)
    }

    /// The stored blob `bid` and its stored cuckoos, in this order.
    pub fn get_cuckoos(&self, bid: BlobID) -> (r: Vec<&BlobEntry<T>>)
        ensures
            entries_of(r@) == stored_entries(self.storage@, seq![bid] + cuckoos_of(self.cuckoos@, bid)),
    {
        let mut ids: Vec<BlobID> = Vec::new();
        ids.push(bid);
        match self.cuckoo_ids(&bid) {
            Some(v) => push_ids(&mut ids, v),
            None => {},
        }
        proof {
            assert(ids@ =~= seq![bid] + cuckoos_of(self.cuckoos@, bid));
        }
        let mut r: Vec<&BlobEntry<T>> = Vec::new();
        let mut j: usize = 0;
        while j < ids.len()
            invariant
                0 <= j <= ids@.len(),
                entries_of(r@) == stored_entries(self.storage@, ids@.take(j as int)),
            decreases ids.len() - j,
        {
            proof {
                assert(ids@.take(j + 1).drop_last() =~= ids@.take(j as int));
            }
            let ghost before = r@;
            match self.find_entry(&ids[j]) {
                Some(i) => {
                    r.push(&self.storage[i]);
                    proof {
                        assert(entries_of(r@) =~= entries_of(before).push(self.storage@[i as int]));
                    }
                },
                None => {},
            }
            j = j + 1;
        }
        proof {
            assert(ids@.take(ids@.len() as int) =~= ids@);
        }
        r
    }
}

} // verus!
