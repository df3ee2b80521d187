use cfg_ip::adapter::{Address, Nic};
use cfg_ip::ip::IpAddress;
use cfg_ip::store::IpConfigList;

fn v4(a: u8, b: u8, c: u8, d: u8) -> IpAddress {
    IpAddress::V4(u32::from_be_bytes([a, b, c, d]))
}

fn config(guid: &str, name: &str, last_octet: u8) -> Nic {
    let one = Address { ip: v4(10, 0, 0, last_octet), netmask: v4(255, 255, 255, 0) };
    Nic::new(name, 1, guid, true, Some(vec![one]), None, None)
}

#[test]
fn insert_then_insert_equal_reports_true_then_false() {
    let mut store = IpConfigList::new();
    let a = config("{A1}", "Ethernet", 5);
    let a_again = config("{A1}", "Ethernet", 5);
    assert!(store.insert(a));
    assert_eq!(store.get_list().len(), 1);
    // A field-identical record is a no-op; the store grows only once.
    assert!(!store.insert(a_again));
    assert_eq!(store.get_list().len(), 1);
}

#[test]
fn distinct_configurations_of_one_adapter_coexist() {
    let mut store = IpConfigList::new();
    assert!(store.insert(config("{A1}", "Ethernet", 5)));
    assert!(store.insert(config("{A1}", "Ethernet", 6)));
    assert!(store.insert(config("{B2}", "Wi-Fi", 9)));
    assert_eq!(store.get_list().len(), 3);
    assert_eq!(store.get_by_guid("{A1}").map(|v| v.len()), Some(2));
    assert_eq!(store.get_by_guid("{B2}").map(|v| v.len()), Some(1));
    assert!(store.get_by_guid("{C3}").is_none());
}

#[test]
fn list_keeps_bucket_and_insertion_order() {
    let mut store = IpConfigList::new();
    store.insert(config("{A1}", "Ethernet", 5));
    store.insert(config("{B2}", "Wi-Fi", 9));
    store.insert(config("{A1}", "Ethernet", 6));
    let list = store.get_list();
    assert_eq!(list.len(), 3);
    // Flattening is guid-major in insertion order, then insertion order
    // within a guid.
    assert_eq!(list[0].guid(), "{A1}");
    assert_eq!(list[0].address()[0].ip, v4(10, 0, 0, 5));
    assert_eq!(list[1].guid(), "{A1}");
    assert_eq!(list[1].address()[0].ip, v4(10, 0, 0, 6));
    assert_eq!(list[2].guid(), "{B2}");
}

#[test]
fn remove_at_valid_indices_remove_exactly_one() {
    for victim in 0..3usize {
        let mut store = IpConfigList::new();
        store.insert(config("{A1}", "Ethernet", 5));
        store.insert(config("{A1}", "Ethernet", 6));
        store.insert(config("{B2}", "Wi-Fi", 9));
        let before = store.get_list();
        let removed = store.remove_at(victim as i32).expect("index is in range");
        let after = store.get_list();
        assert_eq!(after.len(), before.len() - 1);
        assert!(removed == before[victim]);
        // The other entries survive in order.
        let mut expect: Vec<&Nic> = before.iter().collect();
        expect.remove(victim);
        for (kept, want) in after.iter().zip(expect) {
            assert!(kept == want);
        }
    }
}

#[test]
fn remove_at_past_the_end_changes_nothing() {
    let mut store = IpConfigList::new();
    store.insert(config("{A1}", "Ethernet", 5));
    store.insert(config("{B2}", "Wi-Fi", 9));
    assert!(store.remove_at(2).is_none());
    assert!(store.remove_at(1000).is_none());
    assert_eq!(store.get_list().len(), 2);
}

#[test]
fn remove_takes_the_equal_record_and_drops_empty_buckets() {
    let mut store = IpConfigList::new();
    store.insert(config("{A1}", "Ethernet", 5));
    store.insert(config("{A1}", "Ethernet", 6));
    let removed = store.remove(&config("{A1}", "Ethernet", 5)).expect("record is saved");
    assert_eq!(removed.address()[0].ip, v4(10, 0, 0, 5));
    assert_eq!(store.get_list().len(), 1);
    // Removing the last record under a guid drops the guid entirely.
    store.remove(&config("{A1}", "Ethernet", 6)).expect("record is saved");
    assert!(store.get_by_guid("{A1}").is_none());
    assert_eq!(store.get_list().len(), 0);
    // Removing from an empty store yields nothing.
    assert!(store.remove(&config("{A1}", "Ethernet", 6)).is_none());
}

#[test]
fn contains_and_try_get_follow_the_equality_policy() {
    let mut store = IpConfigList::new();
    store.insert(config("{A1}", "Ethernet", 5));
    // Equality ignores index and up state, so a lookup probe with another
    // index still finds the record.
    let probe = {
        let one = Address { ip: v4(10, 0, 0, 5), netmask: v4(255, 255, 255, 0) };
        Nic::new("Ethernet", 42, "{A1}", false, Some(vec![one]), None, None)
    };
    assert!(store.contains(&probe));
    let found = store.try_get(&probe).expect("equal record is saved");
    assert_eq!(found.index(), Some(1));
    let copy = store.try_get_mut(&probe).expect("equal record is saved");
    assert!(copy == *store.try_get(&probe).unwrap());
    // A different configuration is not found.
    assert!(!store.contains(&config("{A1}", "Ethernet", 6)));
    assert!(store.try_get(&config("{B2}", "Ethernet", 5)).is_none());
}

#[test]
fn remove_by_guid_takes_a_whole_bucket() {
    let mut store = IpConfigList::new();
    store.insert(config("{A1}", "Ethernet", 5));
    store.insert(config("{A1}", "Ethernet", 6));
    store.insert(config("{B2}", "Wi-Fi", 9));
    let taken = store.remove_by_guid("{A1}").expect("guid has records");
    assert_eq!(taken.len(), 2);
    assert_eq!(store.get_list().len(), 1);
    assert!(store.remove_by_guid("{A1}").is_none());
    assert!(store.remove_by_guid("{missing}").is_none());
}

#[test]
fn default_store_is_empty() {
    let store = IpConfigList::default();
    assert_eq!(store.get_list().len(), 0);
}
