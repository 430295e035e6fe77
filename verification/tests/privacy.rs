use zapfast::privacy::{
    except_diff, kind_from_wire_name, lists_from_mex, retry_list_after_conflict,
    values_from_response, wire_set, MexContact, MexContactList, MexPrivacyLists, MexUser,
    PrivacyCategory, PrivacyChoice, PrivacyKind, PrivacyList, PrivacySetting,
    PrivacySettingsResponse, PrivacyValue, Snapshot,
};

const ALL_CHOICES: [PrivacyChoice; 6] = [
    PrivacyChoice::Everyone,
    PrivacyChoice::Contacts,
    PrivacyChoice::Except,
    PrivacyChoice::Nobody,
    PrivacyChoice::SameAsLastSeen,
    PrivacyChoice::ContactsAndKnown,
];

#[test]
fn each_category_accepts_only_its_values() {
    for kind in PrivacyKind::ALL {
        for choice in ALL_CHOICES {
            let wire = wire_set(kind, choice);
            if kind.choices().contains(&choice) {
                assert!(wire.is_some(), "{kind:?} {choice:?}");
            } else {
                assert!(wire.is_none(), "{kind:?} {choice:?}");
            }
        }
    }
    assert!(wire_set(PrivacyKind::Online, PrivacyChoice::Nobody).is_none());
    assert!(wire_set(PrivacyKind::ReadReceipts, PrivacyChoice::Contacts).is_none());
    assert!(wire_set(PrivacyKind::CallAdd, PrivacyChoice::Except).is_none());
    assert!(wire_set(PrivacyKind::Messages, PrivacyChoice::Nobody).is_none());
}

#[test]
fn fetch_maps_phone_categories_and_skips_defense() {
    let settings = PrivacySettingsResponse {
        settings: vec![
            PrivacySetting {
                category: PrivacyCategory::Last,
                value: PrivacyValue::ContactBlacklist,
            },
            PrivacySetting {
                category: PrivacyCategory::Online,
                value: PrivacyValue::MatchLastSeen,
            },
            PrivacySetting {
                category: PrivacyCategory::ReadReceipts,
                value: PrivacyValue::Nobody,
            },
            PrivacySetting {
                category: PrivacyCategory::DefenseMode,
                value: PrivacyValue::Off,
            },
        ],
    };
    let values = values_from_response(&settings);
    assert_eq!(
        values,
        vec![
            (PrivacyKind::LastSeen, PrivacyChoice::Except),
            (PrivacyKind::Online, PrivacyChoice::SameAsLastSeen),
            (PrivacyKind::ReadReceipts, PrivacyChoice::Nobody),
        ]
    );
}

#[test]
fn mex_lists_keep_dhash_and_prefer_phone_jid() {
    let data = MexPrivacyLists {
        xwa2_fetch_wa_users: Some(vec![MexUser {
            id: Some("last".into()),
            privacy_contact_list: Some(MexContactList {
                dhash: Some("abc".into()),
                contacts: Some(vec![MexContact {
                    jid: Some("123@lid".into()),
                    pn_jid: Some("393331234567@s.whatsapp.net".into()),
                }]),
            }),
        }]),
    };
    let lists = lists_from_mex(Some(data));
    assert_eq!(lists.len(), 1);
    assert_eq!(lists[0].0, PrivacyKind::LastSeen);
    assert_eq!(lists[0].1.dhash, "abc");
    assert_eq!(lists[0].1.ids, vec!["393331234567@s.whatsapp.net"]);
}

#[test]
fn except_diff_splits_add_and_remove() {
    let current = vec!["a".into(), "b".into()];
    let picked = vec!["b".into(), "c".into()];
    let (add, remove) = except_diff(&current, &picked);
    assert_eq!(add, vec!["c"]);
    assert_eq!(remove, vec!["a"]);
}

#[test]
fn conflict_retries_once() {
    assert!(retry_list_after_conflict(409, false));
    assert!(!retry_list_after_conflict(409, true));
    assert!(!retry_list_after_conflict(500, false));
}

#[test]
fn failed_set_restores_the_snapshot() {
    let mut snapshot = Snapshot::demo("ada".into());
    snapshot.begin_set(PrivacyKind::Profile, PrivacyChoice::Nobody);
    assert_eq!(
        snapshot.get(PrivacyKind::Profile),
        Some(PrivacyChoice::Nobody)
    );
    snapshot.fail_set(PrivacyKind::Profile);
    assert_eq!(
        snapshot.get(PrivacyKind::Profile),
        Some(PrivacyChoice::Contacts)
    );
}

#[test]
fn mex_lists_fall_back_to_position_and_skip_empty_ids() {
    let user = |id: Option<&str>, contacts: Vec<(Option<&str>, Option<&str>)>| MexUser {
        id: id.map(|s| s.to_owned()),
        privacy_contact_list: Some(MexContactList {
            dhash: None,
            contacts: Some(
                contacts
                    .into_iter()
                    .map(|(jid, pn)| MexContact {
                        jid: jid.map(|s| s.to_owned()),
                        pn_jid: pn.map(|s| s.to_owned()),
                    })
                    .collect(),
            ),
        }),
    };
    let data = MexPrivacyLists {
        xwa2_fetch_wa_users: Some(vec![
            user(None, vec![(Some("x@lid"), None)]),
            user(Some("unknown"), vec![(Some(""), None), (None, None)]),
            MexUser { id: Some("groupadd".into()), privacy_contact_list: None },
            user(Some("groupadd"), vec![(Some("j"), Some(""))]),
            user(None, vec![]),
        ]),
    };
    let lists = lists_from_mex(Some(data));
    assert_eq!(lists.len(), 3);
    assert_eq!(lists[0].0, PrivacyKind::LastSeen);
    assert_eq!(lists[0].1.ids, vec!["x@lid"]);
    assert_eq!(lists[0].1.dhash, "");
    assert_eq!(lists[1].0, PrivacyKind::Profile);
    assert!(lists[1].1.ids.is_empty());
    assert_eq!(lists[2].0, PrivacyKind::GroupAdd);
    assert!(lists[2].1.ids.is_empty());
    assert!(lists_from_mex(None).is_empty());
    assert!(lists_from_mex(Some(MexPrivacyLists { xwa2_fetch_wa_users: None })).is_empty());
}

#[test]
fn wire_names_round_trip() {
    for kind in PrivacyKind::ALL {
        assert_eq!(kind_from_wire_name(kind.wire_name()), Some(kind));
        assert_eq!(PrivacyKind::from_wire(&kind.to_wire()), Some(kind));
    }
    for choice in ALL_CHOICES {
        assert_eq!(PrivacyChoice::from_wire(&choice.to_wire().unwrap()), Some(choice));
    }
    assert_eq!(kind_from_wire_name("defense"), None);
    assert_eq!(PrivacyKind::from_wire(&PrivacyCategory::DefenseMode), None);
    assert_eq!(PrivacyKind::from_wire(&PrivacyCategory::Other("x".into())), None);
    assert_eq!(PrivacyChoice::from_wire(&PrivacyValue::OnStandard), None);
    assert_eq!(PrivacyKind::About.wire_name(), "status");
}

#[test]
fn labels_and_except_lists() {
    assert_eq!(PrivacyKind::GroupAdd.label(), "Who can add me to groups");
    assert_eq!(PrivacyKind::GroupAdd.except_title(), "Who cannot add you to groups");
    assert_eq!(PrivacyKind::Online.except_title(), "Except");
    assert_eq!(PrivacyKind::About.hint(), "Who can see your About text. This is not the Status tab.");
    assert_eq!(PrivacyChoice::Except.label(), "Except\u{2026}");
    for kind in PrivacyKind::ALL {
        assert_eq!(
            kind.allows_except(),
            kind.choices().contains(&PrivacyChoice::Except)
        );
    }
    assert_eq!(PrivacyKind::EXCEPT.len(), 4);
    assert!(PrivacyCategory::Other("new".into()).is_valid_value(&PrivacyValue::Off));
    assert!(PrivacyCategory::DefenseMode.is_valid_value(&PrivacyValue::OnStandard));
    assert!(!PrivacyCategory::DefenseMode.is_valid_value(&PrivacyValue::All));
}

#[test]
fn a_second_set_keeps_the_first_revert_and_finish_clears_it() {
    let mut snapshot = Snapshot::demo("ada".into());
    snapshot.begin_set(PrivacyKind::LastSeen, PrivacyChoice::Nobody);
    snapshot.begin_set(PrivacyKind::LastSeen, PrivacyChoice::Everyone);
    assert!(snapshot.pending(PrivacyKind::LastSeen));
    snapshot.fail_set(PrivacyKind::LastSeen);
    assert_eq!(snapshot.get(PrivacyKind::LastSeen), Some(PrivacyChoice::Except));
    assert_eq!(snapshot.list(PrivacyKind::LastSeen).ids, vec!["ada"]);
    assert!(!snapshot.pending(PrivacyKind::LastSeen));

    snapshot.begin_set(PrivacyKind::About, PrivacyChoice::Except);
    snapshot.finish_set(PrivacyKind::About, Some("h2".into()), Some(vec!["bob".into()]));
    assert!(!snapshot.pending(PrivacyKind::About));
    assert_eq!(snapshot.get(PrivacyKind::About), Some(PrivacyChoice::Except));
    assert_eq!(
        snapshot.list(PrivacyKind::About),
        PrivacyList { dhash: "h2".into(), ids: vec!["bob".into()] }
    );
}

#[test]
fn a_set_on_an_unreported_category_reverts_to_its_first_choice() {
    let mut snapshot = Snapshot::default();
    snapshot.begin_set(PrivacyKind::CallAdd, PrivacyChoice::Contacts);
    snapshot.fail_set(PrivacyKind::CallAdd);
    assert_eq!(snapshot.get(PrivacyKind::CallAdd), Some(PrivacyChoice::Everyone));
    assert_eq!(snapshot.list(PrivacyKind::CallAdd), PrivacyList::default());
}

#[test]
fn fetch_failures_keep_what_was_loaded() {
    let mut snapshot = Snapshot::default();
    snapshot.apply_fetch(vec![], vec![], true);
    assert!(snapshot.fetch_failed);
    assert!(!snapshot.loaded);
    snapshot.apply_fetch(
        vec![
            (PrivacyKind::Online, PrivacyChoice::Everyone),
            (PrivacyKind::Online, PrivacyChoice::SameAsLastSeen),
        ],
        vec![(PrivacyKind::Profile, PrivacyList { dhash: "d".into(), ids: vec![] })],
        false,
    );
    assert!(snapshot.loaded);
    assert!(!snapshot.fetch_failed);
    assert_eq!(snapshot.get(PrivacyKind::Online), Some(PrivacyChoice::SameAsLastSeen));
    assert_eq!(snapshot.list(PrivacyKind::Profile).dhash, "d");
    snapshot.begin_set(PrivacyKind::Online, PrivacyChoice::Everyone);
    snapshot.apply_fetch(vec![], vec![], true);
    assert!(snapshot.fetch_failed);
    assert!(snapshot.pending(PrivacyKind::Online));
    assert_eq!(snapshot.get(PrivacyKind::Online), Some(PrivacyChoice::Everyone));
    snapshot.apply_fetch(vec![(PrivacyKind::About, PrivacyChoice::Nobody)], vec![], false);
    assert!(!snapshot.pending(PrivacyKind::Online));
    assert_eq!(snapshot.get(PrivacyKind::Online), None);
    assert_eq!(snapshot.get(PrivacyKind::About), Some(PrivacyChoice::Nobody));
}

#[test]
fn except_diff_keeps_each_list_order() {
    let current: Vec<String> = vec!["d".into(), "a".into(), "b".into()];
    let picked: Vec<String> = vec!["c".into(), "b".into(), "e".into()];
    let (add, remove) = except_diff(&current, &picked);
    assert_eq!(add, vec!["c", "e"]);
    assert_eq!(remove, vec!["d", "a"]);
}

#[test]
fn interleaved_sets_revert_to_before_the_first() {
    let mut snapshot = Snapshot::demo("ada".into());
    snapshot.begin_set(PrivacyKind::LastSeen, PrivacyChoice::Nobody);
    snapshot.begin_set(PrivacyKind::About, PrivacyChoice::Nobody);
    snapshot.finish_set(PrivacyKind::About, None, None);
    snapshot.begin_set(PrivacyKind::LastSeen, PrivacyChoice::Contacts);
    snapshot.begin_set(PrivacyKind::Online, PrivacyChoice::Everyone);
    snapshot.fail_set(PrivacyKind::Online);
    snapshot.begin_set(PrivacyKind::LastSeen, PrivacyChoice::Everyone);
    snapshot.fail_set(PrivacyKind::LastSeen);
    assert_eq!(snapshot.get(PrivacyKind::LastSeen), Some(PrivacyChoice::Except));
    assert_eq!(snapshot.list(PrivacyKind::LastSeen).ids, vec!["ada"]);
    assert_eq!(snapshot.list(PrivacyKind::LastSeen).dhash, "demo");
    assert!(!snapshot.pending(PrivacyKind::LastSeen));
    assert_eq!(snapshot.get(PrivacyKind::About), Some(PrivacyChoice::Nobody));
    assert_eq!(snapshot.get(PrivacyKind::Online), Some(PrivacyChoice::SameAsLastSeen));
}
