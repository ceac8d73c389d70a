use rustfx::rfx::bundle::{binary_dir, is_ofx_bundle, OperatingSystem};
use rustfx::rfx::effectnode::EffectNode;
use rustfx::rfx::engine::{
    context_properties, describe_capabilities, describe_in_context_instantiates, describe_keeps, load_outcome,
    set_general_context, LoadOutcome, PluginRegistry,
};
use rustfx::rfx::project::{next_id, Project};
use rustfx::rfx::propertyset::PropertyValue;

#[test]
fn test_next_id() {
    let mut id1 = "Gain.1".to_string();
    id1 = next_id(&mut id1);
    assert!(id1 == "Gain.2".to_string());

    let mut id2 = "Gain".to_string();
    id2 = next_id(&mut id2);
    assert!(id2 == "Gain.1".to_string());

    let mut id3 = "".to_string();
    id3 = next_id(&mut id3);
    assert!(id3 == ".1".to_string());

    let mut id4 = "Gain.toto".to_string();
    id4 = next_id(&mut id4);
    assert!(id4 == "Gain.toto.1".to_string());
}

#[test]
fn next_id_edge_cases() {
    assert_eq!(next_id(&"Gain.9".to_string()), "Gain.10");
    assert_eq!(next_id(&"Gain.-5".to_string()), "Gain.-4");
    assert_eq!(next_id(&"Gain.-1".to_string()), "Gain.0");
    assert_eq!(next_id(&"Gain.+7".to_string()), "Gain.8");
    assert_eq!(next_id(&"a.b.41".to_string()), "a.b.42");
    assert_eq!(next_id(&"Gain.".to_string()), "Gain..1");
    assert_eq!(next_id(&"Gain.2147483646".to_string()), "Gain.2147483647");
    assert_eq!(next_id(&"Gain.99999999999".to_string()), "Gain.99999999999.1");
    assert_eq!(next_id(&"Gain.-2147483648".to_string()), "Gain.-2147483647");
}

#[test]
fn node_insert_picks_free_names() {
    let mut project = Project::new();
    assert_eq!(project.node_qty(), 0);
    assert_eq!(project.node_insert("Gain".to_string(), EffectNode::new()), "Gain");
    assert_eq!(project.node_insert("Gain".to_string(), EffectNode::new()), "Gain.1");
    assert_eq!(project.node_insert("Gain".to_string(), EffectNode::new()), "Gain.2");
    assert_eq!(project.node_insert("Gain.1".to_string(), EffectNode::new()), "Gain.3");
    assert_eq!(project.node_qty(), 4);
    assert!(project.node_get("Gain.2".to_string()).is_some());
    assert!(project.node_get("Gain.4".to_string()).is_none());
    assert_eq!(project.free_node_id(&"Gain".to_string()), Some("Gain.4".to_string()));
    assert_eq!(project.free_node_id(&"Blur".to_string()), Some("Blur".to_string()));
}

#[test]
fn free_node_id_runs_out_at_the_largest_number() {
    let mut project = Project::new();
    project.node_insert("Gain.2147483647".to_string(), EffectNode::new());
    assert_eq!(project.free_node_id(&"Gain.2147483647".to_string()), None);
    assert_eq!(project.free_node_id(&"Gain.2147483646".to_string()), Some("Gain.2147483646".to_string()));
}

#[test]
fn node_connect_collects_inputs() {
    let mut project = Project::new();
    let a = Some("A".to_string());
    let b = Some("B".to_string());
    let src = Some("Source".to_string());
    project.node_connect(&a, &b, &src);
    project.node_connect(&a, &b, &Some("Mask".to_string()));
    project.node_connect(&None, &b, &src);
    project.node_connect(&a, &None, &src);
    project.node_connect(&a, &b, &None);
    assert_eq!(project.node_qty(), 0);
}

#[test]
fn check_properties() {
    let host = describe_capabilities();
    let result = host.get(b"OfxImageEffectPropMultipleClipDepths", 0);
    assert_eq!(result, Some(&PropertyValue::Integer(0)))
}

#[test]
fn host_capabilities_in_full() {
    let host = describe_capabilities();
    assert_eq!(host.get(b"OfxImageEffectPropSupportsOverlays", 0), Some(&PropertyValue::Integer(1)));
    assert_eq!(host.get(b"OfxParamHostPropSupportsCustomAnimation", 0), Some(&PropertyValue::Integer(1)));
    assert_eq!(
        host.get(b"OfxImageEffectPropContext", 0),
        Some(&PropertyValue::String(b"OfxImageEffectContextGeneral".to_vec()))
    );
    assert_eq!(host.dimension(b"OfxImageEffectPropContext"), Some(1));
}

#[test]
fn general_context_is_set() {
    let props = context_properties();
    assert_eq!(
        props.get(b"OfxImageEffectPropContext", 0),
        Some(&PropertyValue::String(b"OfxImageEffectContextGeneral".to_vec()))
    );
    let mut effect = EffectNode::new();
    set_general_context(effect.properties_handle());
    assert_eq!(effect.properties_handle().dimension(b"OfxImageEffectPropContext"), Some(1));
}

#[test]
fn plugin_answers() {
    assert_eq!(load_outcome(0), LoadOutcome::Describe);
    assert_eq!(load_outcome(14), LoadOutcome::Describe);
    assert_eq!(load_outcome(1), LoadOutcome::Failed);
    assert_eq!(load_outcome(2), LoadOutcome::Fatal);
    assert_eq!(load_outcome(5), LoadOutcome::Unhandled);
    assert!(describe_keeps(0));
    assert!(!describe_keeps(14));
    assert!(describe_in_context_instantiates(0));
    assert!(!describe_in_context_instantiates(4));
}

#[test]
fn registry_keeps_plugins_by_identifier() {
    let mut registry: PluginRegistry<u32> = PluginRegistry::new();
    registry.insert("a.b".to_string(), 1, EffectNode::new());
    registry.insert("c.d".to_string(), 2, EffectNode::new());
    registry.insert("a.b".to_string(), 3, EffectNode::new());
    {
        let (plugin, _description) = registry.get_mut("a.b").unwrap();
        assert_eq!(*plugin, 3);
        *plugin = 4;
    }
    assert_eq!(*registry.get_mut("a.b").unwrap().0, 4);
    assert_eq!(*registry.get_mut("c.d").unwrap().0, 2);
    assert!(registry.get_mut("e.f").is_none());
    let mut ids = registry.identifiers();
    ids.sort();
    assert_eq!(ids, vec!["a.b".to_string(), "c.d".to_string()]);
}

#[test]
fn bundle_names() {
    assert!(is_ofx_bundle("basic.ofx.bundle"));
    assert!(is_ofx_bundle(".ofx.bundle"));
    assert!(!is_ofx_bundle("basic.ofx"));
    assert!(!is_ofx_bundle("basic.OFX.bundle"));
    assert!(!is_ofx_bundle(""));
}

#[test]
fn binary_directories() {
    assert_eq!(binary_dir(OperatingSystem::Linux), Some("Contents/Linux-x86-64"));
    assert_eq!(binary_dir(OperatingSystem::MacOs), Some("Contents/MacOS-x86-64"));
    assert_eq!(binary_dir(OperatingSystem::Other), None);
}
