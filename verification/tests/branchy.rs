use branchy::error::BranchyError;
use branchy::path::{join_components, path_components};
use branchy::store::{
    AddAttachmentInput, AdvanceStateInput, EntryHash, Store, UnitInput, UpdateUnitInput,
    Initialization,
};
use branchy::tag::{
    convert_attachment_tag, convert_tag, encode_attachment_tag, encode_state_tag,
    HrlB64WithContext,
};
use branchy::unit::{validate, Unit};

fn unit(parents: Vec<&str>, name: &str, meta: Vec<(&str, &str)>) -> Unit {
    Unit {
        parents: parents.into_iter().map(|p| p.to_string()).collect(),
        description: String::from("a unit"),
        name: name.to_string(),
        stewards: vec![String::from("uhCAk-steward")],
        meta: meta
            .into_iter()
            .map(|(k, v)| (k.to_string(), v.to_string()))
            .collect(),
    }
}

#[test]
fn tree_paths_without_parents() {
    let u = unit(vec![], "", vec![]);
    assert_eq!(u.tree_paths(), vec![vec![String::from("T")]]);
    let v = unit(vec![], "proc", vec![]);
    assert_eq!(
        v.tree_paths(),
        vec![vec![String::from("T"), String::from("proc")]]
    );
}

#[test]
fn tree_paths_with_dotted_parent() {
    let u = unit(vec!["a.b"], "c", vec![]);
    assert_eq!(
        u.tree_paths(),
        vec![vec![
            String::from("T"),
            String::from("a"),
            String::from("b"),
            String::from("c")
        ]]
    );
    assert_eq!(u.path_str(), "a.b.c");
}

#[test]
fn tree_paths_one_per_parent() {
    let u = unit(vec!["a", "x.y"], "c", vec![]);
    let paths = u.tree_paths();
    assert_eq!(paths.len(), 2);
    assert_eq!(paths[0], vec!["T", "a", "c"]);
    assert_eq!(paths[1], vec!["T", "x", "y", "c"]);
}

#[test]
fn path_components_drops_empty_segments() {
    assert_eq!(path_components(""), Vec::<String>::new());
    assert_eq!(path_components("a..b"), vec!["a", "b"]);
    assert_eq!(path_components(".a.b."), vec!["a", "b"]);
    let joined = join_components(&vec![String::from("a"), String::from("b")]);
    assert_eq!(joined, "a.b");
}

#[test]
fn flags_str_reads_reserved_meta_key() {
    let u = unit(vec![], "n", vec![("flags", "hot"), ("other", "x")]);
    assert_eq!(u.flags_str(), "hot");
    let v = unit(vec![], "n", vec![("other", "x")]);
    assert_eq!(v.flags_str(), "");
}

#[test]
fn state_tag_round_trip() {
    let tag = encode_state_tag("draft", "hot");
    assert_eq!(tag, "draft-hot");
    assert_eq!(
        convert_tag(&tag),
        Ok((String::from("draft"), String::from("hot")))
    );
}

#[test]
fn state_tag_splits_on_first_separator() {
    // A flags string holding '-' still survives the round trip ...
    assert_eq!(
        convert_tag("x-y-z"),
        Ok((String::from("x"), String::from("y-z")))
    );
    // ... but a state holding '-' mis-splits, deterministically.
    let tag = encode_state_tag("a-b", "c");
    assert_eq!(
        convert_tag(&tag),
        Ok((String::from("a"), String::from("b-c")))
    );
}

#[test]
fn state_tag_without_separator_is_rejected() {
    assert_eq!(convert_tag("nodash"), Err(BranchyError::BadLinkTag));
    assert_eq!(convert_tag(""), Err(BranchyError::BadLinkTag));
}

fn hrl(a: &str, b: &str, ctx: Option<&str>) -> HrlB64WithContext {
    HrlB64WithContext {
        hrl: (a.to_string(), b.to_string()),
        context: ctx.map(|c| c.to_string()),
    }
}

#[test]
fn attachment_tag_exact_layout() {
    let tag = encode_attachment_tag(&hrl("ab", "c", Some("zz"))).unwrap();
    assert_eq!(tag, "00000002ab00000001cszz");
    let none = encode_attachment_tag(&hrl("ab", "c", None)).unwrap();
    assert_eq!(none, "00000002ab00000001cn");
}

#[test]
fn attachment_tag_round_trip() {
    for att in [
        hrl("uhC0k-dna", "uhCkk-hash", Some("notes about it")),
        hrl("", "", None),
        hrl("with.dots", "and-dashes", Some("")),
    ] {
        let tag = encode_attachment_tag(&att).unwrap();
        let back = convert_attachment_tag(&tag).unwrap();
        assert_eq!(back.hrl, att.hrl);
        assert_eq!(back.context, att.context);
    }
}

#[test]
fn attachment_tag_rejects_malformed_bytes() {
    assert_eq!(convert_attachment_tag(""), Err(BranchyError::BadLinkTag));
    assert_eq!(
        convert_attachment_tag("0000000x"),
        Err(BranchyError::BadLinkTag)
    );
    // length field pointing past the end
    assert_eq!(
        convert_attachment_tag("00000009ab"),
        Err(BranchyError::BadLinkTag)
    );
    // bad context marker
    assert_eq!(
        convert_attachment_tag("0000000000000000x"),
        Err(BranchyError::BadLinkTag)
    );
    // trailing garbage after a no-context marker
    assert_eq!(
        convert_attachment_tag("0000000000000000ngarbage"),
        Err(BranchyError::BadLinkTag)
    );
}

#[test]
fn attachment_encode_rejects_oversized_locator() {
    let big = "x".repeat(100_000_000);
    let att = HrlB64WithContext {
        hrl: (big, String::new()),
        context: None,
    };
    assert_eq!(encode_attachment_tag(&att), Err(BranchyError::Malformed));
}

#[test]
fn create_unit_appears_in_listing() {
    let mut store = Store::new();
    let u = unit(vec![], "root", vec![("flags", "f1")]);
    let out = store
        .create_unit(UnitInput {
            state: String::from("draft"),
            unit: u.clone(),
        })
        .unwrap();
    assert_eq!(out.info.state, "draft");
    assert_eq!(out.info.flags, "f1");
    let units = store.get_units().unwrap();
    assert_eq!(units.len(), 1);
    assert_eq!(units[0].info.state, "draft");
    assert_eq!(units[0].info.flags, "f1");
    assert_eq!(units[0].record.unit, u);
    assert_eq!(units[0].info.hash, out.info.hash);
}

#[test]
fn listing_of_empty_store_is_empty() {
    let store = Store::new();
    assert_eq!(store.get_units().unwrap().len(), 0);
}

#[test]
fn advance_state_changes_only_the_state() {
    let mut store = Store::new();
    let u = unit(vec![], "root", vec![("flags", "f1")]);
    let out = store
        .create_unit(UnitInput {
            state: String::from("draft"),
            unit: u.clone(),
        })
        .unwrap();
    store
        .advance_state(&AdvanceStateInput {
            new_state: String::from("review"),
            unit_hash: out.info.hash,
        })
        .unwrap();
    let units = store.get_units().unwrap();
    assert_eq!(units.len(), 1);
    assert_eq!(units[0].info.state, "review");
    // content address and flags unchanged
    assert_eq!(units[0].info.hash, out.info.hash);
    assert_eq!(units[0].info.flags, "f1");
    assert_eq!(units[0].record.unit, u);
}

#[test]
fn advance_state_of_unknown_unit_is_not_found() {
    let mut store = Store::new();
    let r = store.advance_state(&AdvanceStateInput {
        new_state: String::from("review"),
        unit_hash: EntryHash { value: 7 },
    });
    assert_eq!(r, Err(BranchyError::NotFound));
}

#[test]
fn update_of_unknown_unit_is_not_found() {
    let mut store = Store::new();
    let r = store.update_unit(&UpdateUnitInput {
        hash: EntryHash { value: 3 },
        state: String::from("draft"),
        unit: unit(vec![], "x", vec![]),
    });
    assert!(r.is_err());
}

#[test]
fn add_attachment_twice_keeps_one_link() {
    let mut store = Store::new();
    let out = store
        .create_unit(UnitInput {
            state: String::from("draft"),
            unit: unit(vec![], "root", vec![]),
        })
        .unwrap();
    let input = AddAttachmentInput {
        unit_hash: out.info.hash,
        attachment: hrl("uhC0k-dna", "uhCkk-hash", Some("ctx")),
    };
    store.add_attachment(&input).unwrap();
    store.add_attachment(&input).unwrap();
    let atts = store.get_attachments(out.info.hash).unwrap();
    assert_eq!(atts.len(), 1);
    assert_eq!(atts[0].hrl, input.attachment.hrl);
    assert_eq!(atts[0].context, input.attachment.context);
}

#[test]
fn remove_attachment_deletes_matching_links() {
    let mut store = Store::new();
    let out = store
        .create_unit(UnitInput {
            state: String::from("draft"),
            unit: unit(vec![], "root", vec![]),
        })
        .unwrap();
    let a = AddAttachmentInput {
        unit_hash: out.info.hash,
        attachment: hrl("d", "h", None),
    };
    let b = AddAttachmentInput {
        unit_hash: out.info.hash,
        attachment: hrl("d", "h", Some("other")),
    };
    store.add_attachment(&a).unwrap();
    store.add_attachment(&b).unwrap();
    assert_eq!(store.get_attachments(out.info.hash).unwrap().len(), 2);
    store.remove_attachment(&a).unwrap();
    let left = store.get_attachments(out.info.hash).unwrap();
    assert_eq!(left.len(), 1);
    assert_eq!(left[0].context, Some(String::from("other")));
}

#[test]
fn attachments_of_unknown_unit_are_empty() {
    let store = Store::new();
    assert_eq!(
        store.get_attachments(EntryHash { value: 9 }).unwrap().len(),
        0
    );
}

#[test]
fn update_unit_reparents_descendants() {
    let mut store = Store::new();
    let parent = unit(vec![], "a", vec![]);
    let parent_out = store
        .create_unit(UnitInput {
            state: String::from("draft"),
            unit: parent,
        })
        .unwrap();
    let child = unit(vec!["a"], "b", vec![]);
    store
        .create_unit(UnitInput {
            state: String::from("alive"),
            unit: child,
        })
        .unwrap();
    // rename the parent: "a" -> "a2"
    let renamed = unit(vec![], "a2", vec![]);
    store
        .update_unit(&UpdateUnitInput {
            hash: parent_out.info.hash,
            state: String::from("draft"),
            unit: renamed,
        })
        .unwrap();
    let units = store.get_units().unwrap();
    assert_eq!(units.len(), 2);
    let moved_child = units
        .iter()
        .find(|o| o.record.unit.name == "b")
        .expect("child still listed");
    // the child's first "a"-prefixed parent entry was rewritten to "a2"
    assert_eq!(moved_child.record.unit.parents, vec![String::from("a2")]);
    // and its own state tag was preserved
    assert_eq!(moved_child.info.state, "alive");
    assert_eq!(moved_child.record.unit.tree_paths(), vec![vec![
        String::from("T"),
        String::from("a2"),
        String::from("b")
    ]]);
}

#[test]
fn update_without_move_keeps_location() {
    let mut store = Store::new();
    let out = store
        .create_unit(UnitInput {
            state: String::from("draft"),
            unit: unit(vec![], "a", vec![]),
        })
        .unwrap();
    let mut changed = unit(vec![], "a", vec![]);
    changed.description = String::from("new text");
    let new_out = store
        .update_unit(&UpdateUnitInput {
            hash: out.info.hash,
            state: String::from("draft"),
            unit: changed.clone(),
        })
        .unwrap();
    assert_ne!(new_out.info.hash, out.info.hash);
    let units = store.get_units().unwrap();
    assert_eq!(units.len(), 1);
    assert_eq!(units[0].record.unit, changed);
}

#[test]
fn initialize_loads_all_units() {
    let mut store = Store::new();
    let init = Initialization {
        units: vec![
            (String::from("draft"), unit(vec![], "a", vec![])),
            (String::from("alive"), unit(vec!["a"], "b", vec![])),
        ],
    };
    store.initialize(&init).unwrap();
    // each loaded unit is indexed exactly as a per-item create would index it
    let units = store.get_units().unwrap();
    assert_eq!(units.len(), 2);
    assert_eq!(units[0].info.state, "draft");
    assert_eq!(units[0].record.unit.name, "a");
    assert_eq!(units[1].info.state, "alive");
    assert_eq!(units[1].record.unit.name, "b");
    assert_eq!(units[1].record.unit.parents, vec![String::from("a")]);
}

#[test]
fn duplicate_root_links_collapse_in_listing() {
    let mut store = Store::new();
    let out = store
        .create_unit(UnitInput {
            state: String::from("draft"),
            unit: unit(vec![], "a", vec![]),
        })
        .unwrap();
    // a second root link for the same unit: the listing still holds one
    // entry, and the tag written last wins
    store.create_unit_links(out.info.hash, &vec![], "review", "f2");
    let units = store.get_units().unwrap();
    assert_eq!(units.len(), 1);
    assert_eq!(units[0].info.state, "review");
    assert_eq!(units[0].info.flags, "f2");
    // deleting at the root removes every link pointing at the unit there
    store.delete_unit_links(out.info.hash, &vec![]);
    assert_eq!(store.get_units().unwrap().len(), 0);
}

#[test]
fn reparent_unit_rewrites_first_matching_parent() {
    let mut store = Store::new();
    let out = store
        .create_unit(UnitInput {
            state: String::from("alive"),
            unit: unit(vec!["a", "a.x"], "b", vec![]),
        })
        .unwrap();
    let (new_out, rewritten) = store
        .reparent_unit(
            &out.info,
            &String::from("a"),
            &String::from("c"),
        )
        .unwrap();
    // only the first "a"-prefixed entry is rewritten
    assert_eq!(
        rewritten.parents,
        vec![String::from("c"), String::from("a.x")]
    );
    assert_eq!(new_out.info.state, "alive");
    assert_ne!(new_out.info.hash, out.info.hash);
}

#[test]
fn validate_accepts_everything() {
    assert!(validate(&unit(vec![], "x", vec![])));
}
