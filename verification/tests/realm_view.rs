use flmodules::dht_storage::realm_view::{BlobEntry, RealmStorage};
use flmodules::flo::blob::{Blob, BlobFamily, BlobID, BlobPage, BlobPath};
use flmodules::flo::realm::RealmID;
use flmodules::nodeid::U256;

fn bid(b: u8) -> BlobID {
    BlobID(U256::from_bytes([b; 32]))
}

/// Adds a page with `path`, as a child of `parent` and as a cuckoo of `cuckoo_of`.
fn add_page(
    rs: &mut RealmStorage<BlobPage>,
    id: BlobID,
    path: &str,
    parent: Option<BlobID>,
    cuckoo_of: Option<BlobID>,
) -> BlobID {
    let mut page = BlobPage(Blob::new("page"));
    page.set_path(path.to_string());
    if let Some(c) = cuckoo_of {
        match rs.cuckoos.iter_mut().find(|(k, _)| *k == c) {
            Some((_, v)) => v.push(id),
            None => rs.cuckoos.push((c, vec![id])),
        }
    }
    if let Some(p) = parent {
        if let Some(e) = rs.storage.iter_mut().find(|e| e.id == p) {
            let mut children = e.blob.get_children();
            children.push(id);
            e.blob.set_children(children);
        }
    }
    rs.storage.push(BlobEntry { id, blob: page });
    id
}

fn found(rs: &RealmStorage<BlobPage>, path: &str) -> Option<BlobID> {
    rs.get_path(path).map(|e| e.id)
}

#[test]
fn realm_view_get_path() {
    let mut rs: RealmStorage<BlobPage> = RealmStorage {
        realm: RealmID(U256::from_bytes([0; 32])),
        root: bid(0),
        storage: vec![],
        cuckoos: vec![],
    };
    let root = add_page(&mut rs, bid(1), "danu", None, None);
    rs.root = root;
    let root_c0 = add_page(&mut rs, bid(2), "dahu", None, Some(root));
    let root_blog = add_page(&mut rs, bid(3), "blog", Some(root), None);
    let root_c0_article = add_page(&mut rs, bid(4), "montagne", Some(root_c0), Some(root_c0));

    assert_eq!(None, found(&rs, "/"));
    assert_eq!(None, found(&rs, "blob"));
    assert_eq!(Some(root), found(&rs, "danu"));
    assert_eq!(Some(root_c0), found(&rs, "dahu"));
    assert_eq!(Some(root_blog), found(&rs, "danu/blog"));
    assert_eq!(Some(root_c0_article), found(&rs, "dahu/montagne"));
}

#[test]
fn realm_view_path_edges() {
    let mut rs: RealmStorage<BlobPage> = RealmStorage {
        realm: RealmID(U256::from_bytes([0; 32])),
        root: bid(1),
        storage: vec![],
        cuckoos: vec![],
    };
    // Nothing stored: no path leads anywhere.
    assert_eq!(None, found(&rs, "danu"));
    let root = add_page(&mut rs, bid(1), "danu", None, None);
    // A blob without children ends every longer path.
    assert_eq!(None, found(&rs, "danu/blog"));
    // The empty path names no blob, and a trailing slash asks for an empty part.
    assert_eq!(None, found(&rs, ""));
    let blog = add_page(&mut rs, bid(3), "blog", Some(root), None);
    assert_eq!(Some(blog), found(&rs, "danu/blog"));
    assert_eq!(None, found(&rs, "danu/blog/"));
    assert_eq!(None, found(&rs, "blog"));
    // The cuckoos of a blob come after it, in their order.
    let cuckoos = rs.get_cuckoos(root);
    assert_eq!(1, cuckoos.len());
    add_page(&mut rs, bid(5), "other", None, Some(root));
    add_page(&mut rs, bid(6), "other", None, Some(root));
    let ids: Vec<BlobID> = rs.get_cuckoos(root).iter().map(|e| e.id).collect();
    assert_eq!(vec![root, bid(5), bid(6)], ids);
    assert_eq!(Some(bid(5)), found(&rs, "other"));
    // An unknown cuckoo identifier is skipped.
    rs.cuckoos[0].1.push(bid(7));
    let ids: Vec<BlobID> = rs.get_cuckoos(root).iter().map(|e| e.id).collect();
    assert_eq!(vec![root, bid(5), bid(6)], ids);
}
