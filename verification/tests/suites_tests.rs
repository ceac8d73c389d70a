use rustfx::rfx::effectnode::EffectNode;
use rustfx::rfx::paramset::{OfxParam, OfxParameterSet};
use rustfx::rfx::propertyset::{OfxPropertySet, PropertyValue};
use rustfx::suites::imageeffect::clip_get_handle;
use rustfx::suites::ofxcore::{
    fetch_suite, kOfxStatErrBadHandle, kOfxStatErrBadIndex, kOfxStatErrExists, kOfxStatErrUnknown, kOfxStatOK,
    Suite,
};
use rustfx::suites::param::{param_define, param_get_handle};
use rustfx::suites::property::{
    get_property, get_property_multiple, insert_property, insert_property_multiple, prop_get_dimension_func,
};

fn param_initialization_test(param: &OfxParam) {
    match param {
        OfxParam::Int1(k) => assert!(k.default == 0),
        OfxParam::Int2(k) => assert!(k.default == (0, 0)),
        _ => assert!(false),
    }
}

#[test]
fn param_create_parameter_set() {
    let mut p_set = OfxParameterSet::new();
    let ret = param_define(&mut p_set, "OfxParamTypeInteger", b"TestIntParam".to_vec());
    assert!(ret == kOfxStatOK);
    let (ret2, p_handle, _props) = param_get_handle(&p_set, b"TestIntParam");
    assert!(p_handle.is_some());
    assert!(ret2 == kOfxStatOK);
}

#[test]
fn param_create_and_set_parameter() {
    let mut p_set = OfxParameterSet::new();
    param_define(&mut p_set, "OfxParamTypeInteger", b"TestIntParam".to_vec());
    let (_ret2, p_handle, _props) = param_get_handle(&p_set, b"TestIntParam");
    param_initialization_test(p_handle.unwrap());
    let param = p_set.param_get(b"TestIntParam").unwrap();
    param.set_raw_data(&[257]);
    match param {
        OfxParam::Int1(p) => assert!(p.default == 257),
        _ => assert!(false),
    }
}

#[test]
fn create_and_set_parameter_2d() {
    let mut p_set = OfxParameterSet::new();
    param_define(&mut p_set, "OfxParamTypeInteger2D", b"TestInt2DParam".to_vec());
    let (_ret2, p_handle, _props) = param_get_handle(&p_set, b"TestInt2DParam");
    param_initialization_test(p_handle.unwrap());
    let param = p_set.param_get(b"TestInt2DParam").unwrap();
    param.set_raw_data(&[257, 67]);
    match param {
        OfxParam::Int2(p) => assert!(p.default.0 == 257 && p.default.1 == 67),
        _ => assert!(false),
    }
    let mut values = vec![0, 0];
    param.get_raw_data(&mut values);
    assert!(values[0] == 257);
    assert!(values[1] == 67);
}

#[test]
fn param_define_statuses() {
    let mut p_set = OfxParameterSet::new();
    assert_eq!(param_define(&mut p_set, "OfxParamTypeUnknown", b"a".to_vec()), kOfxStatErrUnknown);
    let (_, p, _) = param_get_handle(&p_set, b"a");
    assert!(p.is_none());
    assert_eq!(param_define(&mut p_set, "OfxParamTypeInteger", b"a".to_vec()), kOfxStatOK);
    assert_eq!(param_define(&mut p_set, "OfxParamTypeInteger", b"a".to_vec()), kOfxStatErrExists);
    assert_eq!(param_define(&mut p_set, "OfxParamTypeUnknown", b"a".to_vec()), kOfxStatErrUnknown);
    let (ret, p, props) = param_get_handle(&p_set, b"a");
    assert_eq!(ret, kOfxStatOK);
    assert!(p.is_some());
    assert!(props.is_some());
    let (ret, p, props) = param_get_handle(&p_set, b"b");
    assert_eq!(ret, kOfxStatOK);
    assert!(p.is_none());
    assert!(props.is_none());
}

#[test]
fn ofx_property_empty_set() {
    let prop_set = OfxPropertySet::new();
    let ret = get_property(&prop_set, b"TestProperty", 0);
    assert!(ret == Err(kOfxStatErrBadIndex));
}

#[test]
fn property_ofx_property_set_and_get_pointer() {
    let mut prop_set = OfxPropertySet::new();
    let value_set: usize = 283839;
    let value_get: usize = 0;
    assert!(value_set != value_get);
    insert_property(&mut prop_set, b"TestProperty".to_vec(), 0, PropertyValue::Pointer(value_set));
    let got = get_property(&prop_set, b"TestProperty", 0).unwrap();
    assert_eq!(got, &PropertyValue::Pointer(value_set));
}

#[test]
fn property_ofx_property_set_and_get_int() {
    let mut prop_set = OfxPropertySet::new();
    let value_set: i32 = 37677;
    insert_property(&mut prop_set, b"TestProperty".to_vec(), 0, PropertyValue::Integer(value_set));
    let value_get = match get_property(&prop_set, b"TestProperty", 0) {
        Ok(PropertyValue::Integer(v)) => *v,
        _ => 0,
    };
    assert_eq!(value_set, value_get);
}

#[test]
fn property_ofx_property_set_and_get_double() {
    let mut prop_set = OfxPropertySet::new();
    let value_set: f64 = 37677.0;
    insert_property(&mut prop_set, b"TestProperty".to_vec(), 0, PropertyValue::Double(value_set.to_bits()));
    let value_get = match get_property(&prop_set, b"TestProperty", 0) {
        Ok(PropertyValue::Double(v)) => f64::from_bits(*v),
        _ => 0.0,
    };
    assert_eq!(value_set, value_get);
}

#[test]
fn ofx_property_set_and_get_string() {
    let mut prop_set = OfxPropertySet::new();
    insert_property(&mut prop_set, b"TestProperty".to_vec(), 0, PropertyValue::String(b"TestPropertyValue".to_vec()));
    let value_get = match get_property(&prop_set, b"TestProperty", 0) {
        Ok(PropertyValue::String(v)) => v.clone(),
        _ => Vec::new(),
    };
    assert_eq!(b"TestPropertyValue".to_vec(), value_get);
}

#[test]
fn property_ofx_property_set_and_get_multiple_int() {
    let mut prop_set = OfxPropertySet::new();
    let value_set: [i32; 3] = [37677, 677, 90];
    let values: Vec<PropertyValue> = value_set.iter().map(|v| PropertyValue::Integer(*v)).collect();
    insert_property_multiple(&mut prop_set, b"TestProperty".to_vec(), 3, &values);
    let (status, got) = get_property_multiple(&prop_set, b"TestProperty", 3);
    assert_eq!(status, kOfxStatOK);
    let value_get: Vec<i32> = got
        .iter()
        .map(|v| match v {
            PropertyValue::Integer(i) => *i,
            _ => 0,
        })
        .collect();
    assert_eq!(value_set.to_vec(), value_get);
}

#[test]
fn property_suite_refusals() {
    let mut prop_set = OfxPropertySet::new();
    assert_eq!(insert_property(&mut prop_set, b"P".to_vec(), -1, PropertyValue::Integer(1)), kOfxStatErrBadIndex);
    assert_eq!(prop_get_dimension_func(&prop_set, b"P"), Err(kOfxStatErrBadIndex));
    assert_eq!(insert_property_multiple(&mut prop_set, b"P".to_vec(), -2, &[]), kOfxStatErrBadIndex);
    assert_eq!(insert_property_multiple(&mut prop_set, b"P".to_vec(), 0, &[]), kOfxStatOK);
    assert_eq!(prop_get_dimension_func(&prop_set, b"P"), Err(kOfxStatErrBadIndex));
    assert_eq!(get_property(&prop_set, b"P", -1), Err(kOfxStatErrBadIndex));
    let (status, got) = get_property_multiple(&prop_set, b"P", -1);
    assert_eq!(status, kOfxStatErrBadIndex);
    assert!(got.is_empty());
}

#[test]
fn property_multiple_reads_until_missing() {
    let mut prop_set = OfxPropertySet::new();
    let values = vec![PropertyValue::Integer(1), PropertyValue::Integer(2)];
    assert_eq!(insert_property_multiple(&mut prop_set, b"P".to_vec(), 2, &values), kOfxStatOK);
    assert_eq!(prop_get_dimension_func(&prop_set, b"P"), Ok(2));
    let (status, got) = get_property_multiple(&prop_set, b"P", 3);
    assert_eq!(status, kOfxStatErrBadIndex);
    assert_eq!(got, values);
    let three = vec![PropertyValue::Integer(5)];
    insert_property_multiple(&mut prop_set, b"P".to_vec(), 1, &three);
    let (status, got) = get_property_multiple(&prop_set, b"P", 2);
    assert_eq!(status, kOfxStatOK);
    assert_eq!(got, vec![PropertyValue::Integer(5), PropertyValue::Integer(2)]);
}

#[test]
fn fetch_suite_by_name() {
    assert_eq!(fetch_suite("OfxPropertySuite"), Some(Suite::Property));
    assert_eq!(fetch_suite("OfxImageEffectSuite"), Some(Suite::ImageEffect));
    assert_eq!(fetch_suite("OfxParameterSuite"), Some(Suite::Parameter));
    assert_eq!(fetch_suite("OfxProgressSuite"), Some(Suite::Progress));
    assert_eq!(fetch_suite("OfxMemorySuite"), Some(Suite::Memory));
    assert_eq!(fetch_suite("OfxMultiThreadSuite"), Some(Suite::MultiThread));
    assert_eq!(fetch_suite("OfxInteractSuite"), Some(Suite::Interact));
    assert_eq!(fetch_suite("OfxMessageSuite"), Some(Suite::Message));
    assert_eq!(fetch_suite("OfxTimeLineSuite"), None);
    assert_eq!(fetch_suite(""), None);
}

#[test]
fn clips_defined_then_found() {
    let mut effect = EffectNode::new();
    assert!(matches!(clip_get_handle(&mut effect, b"Source"), Err(e) if e == kOfxStatErrBadHandle));
    {
        let props = effect.clip_new(b"Source".to_vec());
        insert_property(props, b"OfxImageClipPropIsMask".to_vec(), 0, PropertyValue::Integer(0));
    }
    let clip = clip_get_handle(&mut effect, b"Source").unwrap();
    assert_eq!(clip.props.get(b"OfxImageClipPropIsMask", 0), Some(&PropertyValue::Integer(0)));
    let props = effect.clip_new(b"Source".to_vec());
    assert_eq!(props.dimension(b"OfxImageClipPropIsMask"), None);
}

#[test]
fn clip_defined_then_found_with_its_properties() {
    let mut effect = EffectNode::new();
    {
        let props = effect.clip_new(b"Output".to_vec());
        insert_property(props, b"Depth".to_vec(), 0, PropertyValue::Integer(8));
    }
    effect.clip_new(b"Source".to_vec());
    let clip = clip_get_handle(&mut effect, b"Output").unwrap();
    assert_eq!(clip.props.get(b"Depth", 0), Some(&PropertyValue::Integer(8)));
    assert!(matches!(clip_get_handle(&mut effect, b"Mask"), Err(e) if e == kOfxStatErrBadHandle));
}
