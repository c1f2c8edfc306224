use flmodules::dht_storage::realm_core::RealmConfig;
use flmodules::flo::blob::{Blob, BlobAccess, BlobFamily, BlobID, BlobPage, BlobPath, BlobTag};
use flmodules::flo::realm::{Realm, RealmID};
use flmodules::nodeid::U256;

fn bid(b: u8) -> BlobID {
    BlobID(U256::from_bytes([b; 32]))
}

#[test]
fn blob_family_links() {
    let mut b = Blob::new("page");
    assert!(b.get_parents().is_empty());
    b.add_parent(bid(1));
    b.add_parent(bid(2));
    assert_eq!(vec![bid(1), bid(2)], b.get_parents());
    b.set_parents(vec![bid(3)]);
    assert_eq!(vec![bid(3)], b.get_parents());
    assert!(b.get_children().is_empty());
    b.add_child(bid(4));
    assert_eq!(vec![bid(4)], b.get_children());
    b.set_children(vec![]);
    assert!(b.get_children().is_empty());
    // One list of links per name.
    assert_eq!(2, b.links().len());
}

#[test]
fn blob_path_and_data() {
    let mut page = BlobPage(Blob::new("page"));
    assert!(page.get_path().is_none());
    page.set_path("/index".to_string());
    page.set_path("/root".to_string());
    assert_eq!(Some(&"/root".to_string()), page.get_path());
    assert_eq!(1, page.get_blob().values().len());
    page.set_data("index.html".to_string(), b"<html/>".to_vec());
    assert_eq!(Some(&b"<html/>".to_vec()), page.get_data(&"index.html".to_string()));
    assert!(page.get_data(&"other".to_string()).is_none());
    let mut tag = BlobTag(Blob::new("tag"));
    tag.add_parent(bid(9));
    assert_eq!(vec![bid(9)], tag.get_parents());
    tag.get_blob_mut().add_child(bid(8));
    assert_eq!(vec![bid(8)], tag.get_children());
}

#[test]
fn realm_services() {
    let config = RealmConfig { max_space: 1000, max_flo_size: 1000 };
    let mut realm = Realm::new("root".to_string(), config);
    assert_eq!("root", realm.get_name());
    assert_eq!(config, realm.get_config());
    let http = U256::from_bytes([1; 32]);
    realm.set_service("http", U256::from_bytes([2; 32]));
    realm.set_service("http", http);
    let services = realm.get_services();
    assert_eq!(1, services.len());
    assert_eq!("http", services[0].0);
    assert_eq!(http.bytes, services[0].1.bytes);
    let rid = RealmID(U256::from_bytes([3; 32]));
    let gid = rid.global_id(http);
    assert_eq!(rid.0.bytes, gid.realm_id().bytes);
    assert_eq!(http.bytes, gid.flo_id().bytes);
}
