use pbs_datastore::error::Error;
use pbs_datastore::node_config::{
    detect_modified_configuration_file, hex_to_digest, update_node_config, DeletableProperty,
    NodeConfig, NodeConfigUpdater,
};
use pbs_datastore::online_status::{
    mtx_status_to_online_set, update_changer_online_status, update_online_status, ChangerReport,
    DriveStatus, ElementStatus, MediaLabel, MtxStatus, OnlineStatusMap, StorageElementStatus,
    VirtualTapeReport,
};
use pbs_datastore::pxar::{
    check_goodbye_entries, check_goodbye_header, file_kind, filename_entry_start,
    goodbye_layout, goodbye_ranges, CaFormatGoodbyeItem, CaFormatHeader, FileKind,
    GoodbyeLayout, CA_FORMAT_FILENAME, CA_FORMAT_GOODBYE, CA_FORMAT_GOODBYE_TAIL_MARKER,
};
use pbs_datastore::resolv_conf::{
    nameserver_candidates, nameserver_in_line, search_domain, select_nameservers,
    update_resolv_conf,
};

fn tail(offset: u64, size: u64) -> CaFormatGoodbyeItem {
    CaFormatGoodbyeItem { offset, size, hash: CA_FORMAT_GOODBYE_TAIL_MARKER }
}

#[test]
fn goodbye_table_is_located_from_its_tail() {
    // directory at 100..1000 with a table of two items
    let layout = goodbye_layout(100, 1000, &tail(812, 88)).unwrap();
    assert_eq!(
        layout,
        GoodbyeLayout { goodbye_start: 912, table_size: 88, count: 2 }
    );
    assert_eq!(
        goodbye_layout(0, 40, &tail(0, 40)),
        Ok(GoodbyeLayout { goodbye_start: 0, table_size: 40, count: 0 })
    );
    let bad = [
        (100u64, 139u64, tail(0, 40)),
        (1000, 100, tail(812, 88)),
        (100, 1000, CaFormatGoodbyeItem { offset: 812, size: 88, hash: 1 }),
        (100, 1000, tail(812, 39)),
        (100, 1000, tail(811, 89)),
        (100, 1000, tail(0, 1000)),
        (100, 1000, tail(813, 88)),
        (0, u64::MAX, tail(0, u64::MAX)),
    ];
    for (start, end, item) in bad {
        assert_eq!(goodbye_layout(start, end, &item), Err(Error::Corrupt));
    }
}

#[test]
fn goodbye_items_name_entries_inside_the_directory() {
    let layout = GoodbyeLayout { goodbye_start: 912, table_size: 88, count: 2 };
    let item = |offset: u64, size: u64| CaFormatGoodbyeItem { offset, size, hash: 7 };
    assert_eq!(
        goodbye_ranges(100, &layout, &vec![item(812, 400), item(412, 412)]),
        Ok(vec![(100, 500), (500, 912)])
    );
    assert_eq!(goodbye_ranges(100, &layout, &vec![]), Ok(vec![]));
    assert_eq!(
        goodbye_ranges(100, &layout, &vec![item(813, 1)]),
        Err(Error::Corrupt)
    );
    assert_eq!(
        goodbye_ranges(100, &layout, &vec![item(412, 413)]),
        Err(Error::Corrupt)
    );
    assert_eq!(
        goodbye_ranges(100, &layout, &vec![item(412, u64::MAX)]),
        Err(Error::Corrupt)
    );
    assert_eq!(
        check_goodbye_header(&CaFormatHeader { htype: CA_FORMAT_GOODBYE, size: 88 }, &layout),
        Ok(())
    );
    assert_eq!(
        check_goodbye_header(&CaFormatHeader { htype: CA_FORMAT_GOODBYE, size: 64 }, &layout),
        Err(Error::Corrupt)
    );
    assert_eq!(
        check_goodbye_header(&CaFormatHeader { htype: CA_FORMAT_FILENAME, size: 88 }, &layout),
        Err(Error::Corrupt)
    );
}

#[test]
fn archive_items_are_checked() {
    assert_eq!(
        filename_entry_start(100, &CaFormatHeader { htype: CA_FORMAT_FILENAME, size: 24 }),
        Ok(124)
    );
    assert_eq!(
        filename_entry_start(100, &CaFormatHeader { htype: CA_FORMAT_GOODBYE, size: 24 }),
        Err(Error::Corrupt)
    );
    assert_eq!(
        filename_entry_start(2, &CaFormatHeader { htype: CA_FORMAT_FILENAME, size: u64::MAX - 1 }),
        Err(Error::Corrupt)
    );
    assert_eq!(file_kind(0o040755), Ok(FileKind::Directory));
    assert_eq!(file_kind(0o100644), Ok(FileKind::Regular));
    assert_eq!(file_kind(0o120777), Ok(FileKind::Symlink));
    assert_eq!(file_kind(0o060660), Ok(FileKind::BlockDevice));
    assert_eq!(file_kind(0o020620), Ok(FileKind::CharDevice));
    assert_eq!(file_kind(0o140755), Err(Error::Corrupt));
    assert_eq!(file_kind(0o010644), Err(Error::Corrupt));
    let items = vec![
        CaFormatGoodbyeItem { offset: 1, size: 2, hash: 3 },
        tail(0, 64),
    ];
    assert_eq!(check_goodbye_entries(&items, 48), Ok(()));
    assert_eq!(check_goodbye_entries(&items, 24), Err(Error::Corrupt));
}

fn node_config() -> NodeConfig {
    NodeConfig {
        acme: Some("account=default".to_string()),
        acmedomain0: Some("domain=a.example".to_string()),
        acmedomain1: None,
        acmedomain2: None,
        acmedomain3: None,
        acmedomain4: None,
        http_proxy: Some("http://proxy:3128".to_string()),
    }
}

fn no_update() -> NodeConfigUpdater {
    NodeConfigUpdater {
        acme: None,
        acmedomain0: None,
        acmedomain1: None,
        acmedomain2: None,
        acmedomain3: None,
        acmedomain4: None,
        http_proxy: None,
    }
}

#[test]
fn node_config_is_updated() {
    let expected = [0xabu8; 32];
    let mut config = node_config();
    let mut update = no_update();
    update.acme = Some("account=other".to_string());
    update.acmedomain1 = Some("domain=b.example".to_string());
    let delete = vec![DeletableProperty::acme, DeletableProperty::http_proxy];
    assert_eq!(
        update_node_config(&mut config, update, Some(delete), None, &expected),
        Ok(())
    );
    assert_eq!(config.acme.as_deref(), Some("account=other"));
    assert_eq!(config.acmedomain0.as_deref(), Some("domain=a.example"));
    assert_eq!(config.acmedomain1.as_deref(), Some("domain=b.example"));
    assert_eq!(config.http_proxy, None);
}

#[test]
fn node_config_update_checks_the_digest() {
    let expected = [0xabu8; 32];
    let same = "ab".repeat(32);
    let upper = "AB".repeat(32);
    let other = "cd".repeat(32);
    let delete = || Some(vec![DeletableProperty::acmedomain0]);
    let mut config = node_config();
    assert_eq!(
        update_node_config(&mut config, no_update(), delete(), Some(&other), &expected),
        Err(Error::ConfigModified)
    );
    assert_eq!(
        update_node_config(&mut config, no_update(), delete(), Some("abc"), &expected),
        Err(Error::InvalidInput)
    );
    assert_eq!(
        update_node_config(&mut config, no_update(), delete(), Some(&"zz".repeat(32)), &expected),
        Err(Error::InvalidInput)
    );
    assert!(config.acmedomain0.is_some());
    assert_eq!(
        update_node_config(&mut config, no_update(), None, Some(""), &expected),
        Ok(())
    );
    assert_eq!(
        update_node_config(&mut config, no_update(), None, Some(&upper), &expected),
        Ok(())
    );
    assert_eq!(
        update_node_config(&mut config, no_update(), delete(), Some(&same), &expected),
        Ok(())
    );
    assert!(config.acmedomain0.is_none());
    assert_eq!(hex_to_digest(&same), Ok(vec![0xab; 32]));
    assert_eq!(hex_to_digest("0f"), Err(Error::InvalidInput));
    assert_eq!(
        detect_modified_configuration_file(&vec![0xab; 32], &expected),
        Ok(())
    );
    assert_eq!(
        detect_modified_configuration_file(&vec![0xab; 31], &expected),
        Err(Error::ConfigModified)
    );
}

fn inventory() -> Vec<MediaLabel> {
    vec![
        MediaLabel { label_text: "TAPE01".to_string(), uuid: [1; 16] },
        MediaLabel { label_text: "TAPE02".to_string(), uuid: [2; 16] },
        MediaLabel { label_text: "TAPE03".to_string(), uuid: [3; 16] },
        MediaLabel { label_text: "TAPE01".to_string(), uuid: [9; 16] },
    ]
}

#[test]
fn online_media_are_those_the_changer_shows() {
    let tag = |t: &str| ElementStatus::VolumeTag(t.to_string());
    let status = MtxStatus {
        drives: vec![
            DriveStatus { status: tag("TAPE02") },
            DriveStatus { status: ElementStatus::Empty },
        ],
        slots: vec![
            StorageElementStatus { import_export: false, status: tag("TAPE01") },
            StorageElementStatus { import_export: true, status: tag("TAPE03") },
            StorageElementStatus { import_export: false, status: tag("UNKNOWN") },
            StorageElementStatus { import_export: false, status: ElementStatus::Full },
            StorageElementStatus { import_export: false, status: tag("TAPE02") },
        ],
    };
    assert_eq!(
        mtx_status_to_online_set(&status, &inventory()),
        vec![[2u8; 16], [1u8; 16]]
    );
}

#[test]
fn online_status_is_taken_up_once() {
    let changers = vec!["sl3".to_string()];
    let vtapes = vec!["vtape".to_string()];
    let mut map = OnlineStatusMap::new(&changers, &vtapes);
    assert_eq!(map.online_map("sl3"), Some(&None));
    assert_eq!(map.online_map("vtape"), Some(&None));
    assert_eq!(map.online_map("other"), None);
    assert!(map.changer_map().is_empty());
    assert_eq!(map.lookup_changer(&[1; 16]), None);
    assert_eq!(
        map.update_online_status("other", vec![[1; 16]]),
        Err(Error::NotFound)
    );
    assert_eq!(map.update_online_status("sl3", vec![[1; 16], [2; 16]]), Ok(()));
    assert_eq!(map.online_map("sl3"), Some(&Some(vec![[1; 16], [2; 16]])));
    assert_eq!(
        map.changer_map(),
        &vec![([1u8; 16], "sl3".to_string()), ([2u8; 16], "sl3".to_string())]
    );
    assert_eq!(map.lookup_changer(&[1; 16]), Some(&"sl3".to_string()));
    assert_eq!(map.lookup_changer(&[3; 16]), None);
    assert_eq!(
        map.update_online_status("sl3", vec![[3; 16]]),
        Err(Error::InvalidInput)
    );
    assert_eq!(map.lookup_changer(&[3; 16]), None);
    assert_eq!(map.update_online_status("vtape", vec![[2; 16]]), Ok(()));
    assert_eq!(map.lookup_changer(&[2; 16]), Some(&"vtape".to_string()));

    let labels = vec!["TAPE03".to_string(), "NOPE".to_string()];
    let map = update_changer_online_status(&changers, &vtapes, &inventory(), "vtape", &labels)
        .ok()
        .unwrap();
    assert_eq!(map.lookup_changer(&[3; 16]), Some(&"vtape".to_string()));
    assert!(update_changer_online_status(&changers, &vtapes, &inventory(), "x", &labels).is_err());
}

fn changer_with(name: &str, tags: &[&str]) -> ChangerReport {
    let mut slots = Vec::new();
    for t in tags {
        slots.push(StorageElementStatus {
            import_export: false,
            status: ElementStatus::VolumeTag(t.to_string()),
        });
    }
    ChangerReport {
        name: name.to_string(),
        status: Some(MtxStatus { drives: Vec::new(), slots }),
    }
}

#[test]
fn answers_of_all_changers_are_taken_up() {
    let changers = vec![
        changer_with("sl3", &["TAPE01", "NOPE"]),
        ChangerReport { name: "silent".to_string(), status: None },
    ];
    let vtapes = vec![
        VirtualTapeReport {
            name: "vtape".to_string(),
            labels: Some(vec!["TAPE02".to_string(), "TAPE01".to_string()]),
        },
        VirtualTapeReport { name: "quiet".to_string(), labels: None },
    ];
    let map = update_online_status(&changers, &vtapes, &inventory(), None).ok().unwrap();
    assert_eq!(map.online_map("sl3"), Some(&Some(vec![[1u8; 16]])));
    assert_eq!(map.online_map("silent"), Some(&None));
    assert_eq!(map.online_map("vtape"), Some(&Some(vec![[2u8; 16], [1u8; 16]])));
    assert_eq!(map.online_map("quiet"), Some(&None));
    assert_eq!(map.online_map("other"), None);
    // the answer that was taken up last wins
    assert_eq!(map.lookup_changer(&[1; 16]), Some(&"vtape".to_string()));
    assert_eq!(map.lookup_changer(&[2; 16]), Some(&"vtape".to_string()));
    assert_eq!(map.lookup_changer(&[3; 16]), None);
}

#[test]
fn answer_of_one_changer_is_taken_up() {
    let changers = vec![changer_with("sl3", &["TAPE01"]), changer_with("sl4", &["TAPE03"])];
    let vtapes = vec![VirtualTapeReport {
        name: "vtape".to_string(),
        labels: Some(vec!["TAPE02".to_string()]),
    }];
    let map = update_online_status(&changers, &vtapes, &inventory(), Some("sl4")).ok().unwrap();
    assert_eq!(map.online_map("sl3"), Some(&None));
    assert_eq!(map.online_map("sl4"), Some(&Some(vec![[3u8; 16]])));
    assert_eq!(map.online_map("vtape"), Some(&None));
    assert_eq!(map.lookup_changer(&[1; 16]), None);
    assert_eq!(map.lookup_changer(&[3; 16]), Some(&"sl4".to_string()));

    let map = update_online_status(&changers, &vtapes, &inventory(), Some("vtape")).ok().unwrap();
    assert_eq!(map.online_map("vtape"), Some(&Some(vec![[2u8; 16]])));
    assert_eq!(map.online_map("sl4"), Some(&None));

    assert_eq!(
        update_online_status(&changers, &vtapes, &inventory(), Some("nope")).err(),
        Some(Error::NotFound)
    );
    assert_eq!(
        update_online_status(&Vec::new(), &Vec::new(), &inventory(), Some("sl3")).err(),
        Some(Error::NotFound)
    );
    assert!(update_online_status(&Vec::new(), &Vec::new(), &inventory(), None).is_ok());
}

#[test]
fn two_answers_of_one_name_are_refused() {
    let changers = vec![changer_with("sl3", &["TAPE01"]), changer_with("sl4", &["TAPE03"])];
    let vtapes = vec![VirtualTapeReport { name: "sl3".to_string(), labels: Some(Vec::new()) }];
    assert_eq!(
        update_online_status(&changers, &vtapes, &inventory(), None).err(),
        Some(Error::InvalidInput)
    );
    assert_eq!(
        update_online_status(&changers, &vtapes, &inventory(), Some("sl3")).err(),
        Some(Error::InvalidInput)
    );
    // an answer that is not taken up does not count
    assert!(update_online_status(&changers, &vtapes, &inventory(), Some("sl4")).is_ok());
    let silent = vec![VirtualTapeReport { name: "sl3".to_string(), labels: None }];
    assert!(update_online_status(&changers, &silent, &inventory(), None).is_ok());
}

#[test]
fn resolver_configuration_is_read_and_updated() {
    let old = "# generated\nsearch old.example\nnameserver 192.0.2.1\n  domain second.example extra\noptions edns0\r\nnameserverx 1\nsearch\nlast";
    assert_eq!(search_domain(old), Some("second.example".to_string()));
    assert_eq!(search_domain("nameserver 192.0.2.1\n"), None);
    assert_eq!(search_domain("search \t \n"), None);
    assert_eq!(search_domain("searching for.example\n"), None);

    let servers = vec![Some("192.0.2.53".to_string()), None, Some("2001:db8::53".to_string())];
    assert_eq!(
        update_resolv_conf("new.example", &servers, old),
        "search new.example\nnameserver 192.0.2.53\nnameserver 2001:db8::53\n# generated\n  domain second.example extra\noptions edns0\nnameserverx 1\nsearch\nlast\n"
    );
    assert_eq!(
        update_resolv_conf("x", &vec![None, None, None], ""),
        "search x\n"
    );
}

#[test]
fn name_servers_are_the_first_three_addresses() {
    let data = "# generated\nsearch example.org\nnameserver 192.0.2.1\n  nameserver\t2001:db8::53 # v6\r\nnameserver\nnameserverx 1.1.1.1\nnameserver bogus\nnameserver 192.0.2.3\nnameserver 192.0.2.4";
    let words = nameserver_candidates(data);
    assert_eq!(
        words,
        vec!["192.0.2.1", "2001:db8::53", "bogus", "192.0.2.3", "192.0.2.4"]
    );
    let valid = vec![true, true, false, true, true];
    assert_eq!(
        select_nameservers(&words, &valid),
        vec!["192.0.2.1", "2001:db8::53", "192.0.2.3"]
    );
    // a word without a mark is no address
    assert_eq!(select_nameservers(&words, &vec![false, true]), vec!["2001:db8::53"]);
    assert!(select_nameservers(&words, &Vec::new()).is_empty());
    assert!(select_nameservers(&Vec::new(), &vec![true]).is_empty());
    assert!(nameserver_candidates("").is_empty());

    let line = |text: &str| nameserver_in_line(&text.chars().collect());
    assert_eq!(line("nameserver 10.0.0.1"), Some("10.0.0.1".chars().collect()));
    assert_eq!(line(" \tnameserver   10.0.0.1 trailing"), Some("10.0.0.1".chars().collect()));
    assert_eq!(line("nameserver"), None);
    assert_eq!(line("nameserver   "), None);
    assert_eq!(line("nameserver10.0.0.1"), None);
    assert_eq!(line("search example.org"), None);
}
