use rustfx::rfx::paramset::{OfxParam, OfxParameterSet};
use rustfx::suites::param::{param_get_nb_component, param_get_type};

#[test]
fn set_and_get_int1() {
    let mut paramset = OfxParameterSet::new();
    let param_name = b"test_parameter".to_vec();
    paramset.create_param("OfxParamTypeInteger", param_name.clone());

    let param = paramset.param_get(&param_name).unwrap();
    param.int1_set(3);
    assert!(param.int1_get() == 3);
}

#[test]
fn set_and_get_int2() {
    let mut paramset = OfxParameterSet::new();
    let param_name = b"test_parameter".to_vec();
    paramset.create_param("OfxParamTypeInteger2D", param_name.clone());

    let param = paramset.param_get(&param_name).unwrap();
    param.int2_set(3, 400);
    assert_eq!(param.int2_get(), [3, 400]);
    param.int2_set(6789, -90);
    assert_eq!(param.int2_get(), [6789, -90]);
}

#[test]
fn create_param_replaces_and_returns_previous() {
    let mut paramset = OfxParameterSet::new();
    let name = b"p".to_vec();
    assert!(paramset.create_param("OfxParamTypeInteger", name.clone()).is_none());
    paramset.param_get(&name).unwrap().int1_set(5);
    let previous = paramset.create_param("OfxParamTypeInteger", name.clone()).unwrap();
    assert_eq!(previous.int1_get(), 5);
    assert_eq!(paramset.param_get(&name).unwrap().int1_get(), 0);
}

#[test]
fn create_param_unknown_type_changes_nothing() {
    let mut paramset = OfxParameterSet::new();
    let name = b"p".to_vec();
    assert!(paramset.create_param("OfxParamTypeParametric", name.clone()).is_none());
    assert!(paramset.param_get(&name).is_none());
}

#[test]
fn int1_reads_back_as_pair() {
    let mut paramset = OfxParameterSet::new();
    let name = b"p".to_vec();
    paramset.create_param("OfxParamTypeInteger", name.clone());
    let param = paramset.param_get(&name).unwrap();
    param.int2_set(8, 9);
    assert_eq!(param.int2_get(), [8, 0]);
    assert_eq!(param.int1_get(), 8);
}

#[test]
fn raw_data_round_trip() {
    let mut paramset = OfxParameterSet::new();
    let name = b"p".to_vec();
    paramset.create_param("OfxParamTypeInteger2D", name.clone());
    let param = paramset.param_get(&name).unwrap();
    param.set_raw_data(&[11, -12]);
    let mut out = vec![0, 0, 99];
    param.get_raw_data(&mut out);
    assert_eq!(out, vec![11, -12, 99]);
    param.int_set(&[1, 2]);
    assert_eq!(param.int2_get(), [1, 2]);
}

#[test]
fn kinds_components_and_types() {
    let mut paramset = OfxParameterSet::new();
    let kinds = [
        ("OfxParamTypeInteger", 1, 0),
        ("OfxParamTypeDouble", 1, 1),
        ("OfxParamTypeBoolean", 1, 0),
        ("OfxParamTypeChoice", 1, 0),
        ("OfxParamTypeRGBA", 4, 1),
        ("OfxParamTypeRGB", 3, 1),
        ("OfxParamTypeDouble2D", 2, 1),
        ("OfxParamTypeInteger2D", 2, 0),
        ("OfxParamTypeDouble3D", 3, 1),
        ("OfxParamTypeInteger3D", 3, 0),
        ("OfxParamTypeString", 1, 2),
        ("OfxParamTypeCustom", 1, 0),
        ("OfxParamTypeGroup", 1, 0),
        ("OfxParamTypePage", 1, 0),
        ("OfxParamTypePushButton", 1, 0),
    ];
    for (t, n, ty) in kinds.iter() {
        let name = t.as_bytes().to_vec();
        paramset.create_param(t, name.clone());
        let param = paramset.param_get(&name).unwrap();
        assert_eq!(param_get_nb_component(param), *n);
        assert_eq!(param_get_type(param), *ty);
    }
    let choice = paramset.param_get(b"OfxParamTypeChoice").unwrap();
    assert!(choice.properties().is_none());
    let boolean = paramset.param_get(b"OfxParamTypeBoolean").unwrap();
    assert!(matches!(boolean, OfxParam::Boolean(true, _)));
    assert!(boolean.properties().is_some());
}

#[test]
fn param_and_prop_ptr_of_missing_param() {
    let paramset = OfxParameterSet::new();
    let (p, props) = paramset.param_and_prop_ptr(b"none");
    assert!(p.is_none());
    assert!(props.is_none());
}
