use lsm::catalog::{Catalog, CatalogEntry, CatalogError, CatalogFile, CATALOG_VERSION};

fn sample_entry(id: u64, smallest: &str, largest: &str) -> CatalogEntry {
    CatalogEntry {
        id,
        path: format!("sst/{id:08}.sst"),
        entry_count: 10,
        smallest_key: smallest.into(),
        largest_key: largest.into(),
        data_crc32: 0,
    }
}

#[test]
fn empty_catalog_starts_with_id_one() {
    let mut catalog = Catalog::load_or_create(None).unwrap();
    assert_eq!(catalog.allocate_sst_id(), 1);
    assert_eq!(catalog.allocate_sst_id(), 2);
}

#[test]
fn add_level0_puts_newest_first_and_persists() {
    let mut catalog = Catalog::load_or_create(None).unwrap();

    catalog.add_level0(sample_entry(1, "a", "m"));
    let file = catalog.add_level0(sample_entry(2, "n", "z"));

    let entries = catalog.level0_entries();
    assert_eq!(entries.len(), 2);
    assert_eq!(entries[0].id, 2);
    assert_eq!(entries[1].id, 1);

    let reloaded = Catalog::load_or_create(Some(file)).unwrap();
    let entries = reloaded.level0_entries();
    assert_eq!(entries.len(), 2);
    assert_eq!(entries[0].id, 2);
    assert_eq!(entries[1].id, 1);
}

#[test]
fn next_id_continues_after_reload() {
    let file = {
        let mut catalog = Catalog::load_or_create(None).unwrap();
        catalog.add_level0(sample_entry(1, "a", "m"));
        catalog.add_level0(sample_entry(2, "n", "z"))
    };

    let mut reloaded = Catalog::load_or_create(Some(file)).unwrap();
    assert_eq!(reloaded.allocate_sst_id(), 3);
}

#[test]
fn other_versions_are_refused() {
    for version in [0, 2, u32::MAX] {
        let file = CatalogFile { version, level0: vec![sample_entry(1, "a", "m")] };
        assert_eq!(
            Catalog::load_or_create(Some(file)).unwrap_err(),
            CatalogError::UnsupportedVersion(version)
        );
    }
}

#[test]
fn the_highest_id_counts_wherever_it_stands() {
    let file = CatalogFile {
        version: CATALOG_VERSION,
        level0: vec![
            sample_entry(3, "a", "b"),
            sample_entry(9, "c", "d"),
            sample_entry(7, "e", "f"),
        ],
    };
    let mut catalog = Catalog::load_or_create(Some(file)).unwrap();
    assert_eq!(catalog.next_sst_id(), 10);
    assert_eq!(catalog.allocate_sst_id(), 10);
    assert_eq!(catalog.next_sst_id(), 11);
}

#[test]
fn what_is_persisted_is_loaded() {
    let mut catalog = Catalog::load_or_create(None).unwrap();
    assert_eq!(
        catalog.persist(),
        CatalogFile { version: 1, level0: vec![] }
    );
    let first = sample_entry(catalog.allocate_sst_id(), "a", "m");
    let second = sample_entry(catalog.allocate_sst_id(), "b", "n");
    catalog.add_level0(first.clone());
    catalog.add_level0(second.clone());
    let file = catalog.persist();
    assert_eq!(file.version, 1);
    assert_eq!(file.level0, vec![second, first]);

    let reloaded = Catalog::load_or_create(Some(file)).unwrap();
    assert_eq!(reloaded.level0_entries(), catalog.level0_entries());
    assert_eq!(reloaded.next_sst_id(), catalog.next_sst_id());
}

#[test]
fn ids_that_were_not_registered_are_given_out_again() {
    let mut catalog = Catalog::load_or_create(None).unwrap();
    assert_eq!(catalog.allocate_sst_id(), 1);
    let mut reloaded = Catalog::load_or_create(Some(catalog.persist())).unwrap();
    assert_eq!(reloaded.allocate_sst_id(), 1);
}

#[test]
fn ids_can_be_taken_ahead_of_registering() {
    let mut catalog = Catalog::load_or_create(None).unwrap();
    let first = catalog.allocate_sst_id();
    let second = catalog.allocate_sst_id();
    catalog.add_level0(sample_entry(first, "a", "m"));
    catalog.add_level0(sample_entry(second, "n", "z"));
    let ids: Vec<u64> = catalog.level0_entries().iter().map(|entry| entry.id).collect();
    assert_eq!(ids, vec![2, 1]);
    assert_eq!(catalog.next_sst_id(), 3);
}
