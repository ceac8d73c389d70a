use rustfx::rfx::propertyset::{OfxPropertySet, PropertyValue, ToOfxProperty};

fn clone_keyword_test(value: &[u8]) -> Vec<u8> {
    let mut v = value.to_vec();
    v.pop();
    v
}

fn kw_to_cstring_test(value: &[u8]) -> Vec<u8> {
    let mut v = value.to_vec();
    v.pop();
    v
}

#[test]
fn test_property_set_and_get_integer() {
    let mut properties = OfxPropertySet::new();
    let key = b"Test".to_vec();
    let value_0 = 9299 as i32;
    properties.insert(key.clone(), 0, PropertyValue::Integer(value_0));
    let value_wrapper = PropertyValue::Integer(value_0);
    assert_eq!(properties.get(&key, 0), Some(&value_wrapper));
}

#[test]
fn test_property_set_and_get_floating() {
    let mut properties = OfxPropertySet::new();
    let key = b"Test".to_vec();
    let value = 9299.0f64;
    properties.insert(key.clone(), 0, PropertyValue::Double(value.to_bits()));
    let value_wrapper = PropertyValue::Double(value.to_bits());
    assert_eq!(properties.get(&key, 0), Some(&value_wrapper));
}

#[test]
fn test_property_set_and_get_string() {
    let mut properties = OfxPropertySet::new();
    let key = b"Test".to_vec();
    let value = b"test".to_vec();
    properties.insert(key.clone(), 0, PropertyValue::String(value.clone()));
    let value_wrapper = PropertyValue::String(value);
    assert_eq!(properties.get(&key, 0), Some(&value_wrapper));
}

#[test]
fn test_property_set_and_get_c_char() {
    let mut properties = OfxPropertySet::new();
    let uchar_buffer_key: &'static [u8] = b"uchar_buffer_key\0";
    let uchar_buffer_value: &'static [u8] = b"uchar_buffer_value\0";
    let key = kw_to_cstring_test(uchar_buffer_key);
    let new_value = clone_keyword_test(uchar_buffer_value);
    properties.insert(key, 0, PropertyValue::String(new_value));
    let value_wrapper = PropertyValue::String(b"uchar_buffer_value".to_vec());
    let key = kw_to_cstring_test(uchar_buffer_key);
    assert_eq!(properties.get(&key, 0), Some(&value_wrapper));
}

#[test]
fn test_property_set_and_get_c_char_clone() {
    let mut properties = OfxPropertySet::new();
    let uchar_buffer_key: &'static [u8] = b"uchar_buffer_key\0";
    let uchar_buffer_value: &'static [u8] = b"uchar_buffer_value\0";
    let key = kw_to_cstring_test(uchar_buffer_key);
    let new_value = clone_keyword_test(uchar_buffer_value);
    properties.insert(key, 0, PropertyValue::String(new_value));
    let properties_cloned = properties.clone();
    let value_wrapper = PropertyValue::String(b"uchar_buffer_value".to_vec());
    let key = kw_to_cstring_test(uchar_buffer_key);
    assert_eq!(properties_cloned.get(&key, 0), Some(&value_wrapper));
}

#[test]
fn test_property_set_and_get_multiple_integer() {
    let mut properties = OfxPropertySet::new();
    let key = b"Test".to_vec();
    let value_0 = 9299 as i32;
    properties.insert(key.clone(), 0, PropertyValue::Integer(value_0));
    let value_wrapper = PropertyValue::Integer(value_0);
    assert_eq!(properties.get(&key, 0), Some(&value_wrapper));

    let value_1 = 91909 as i32;
    properties.insert(key.clone(), 1, PropertyValue::Integer(value_1));
    let value_wrapper = PropertyValue::Integer(value_1);
    assert_eq!(properties.get(&key, 1), Some(&value_wrapper));

    let value_10 = 9190389 as i32;
    properties.insert(key.clone(), 10, PropertyValue::Integer(value_10));
    let value_wrapper = PropertyValue::Integer(value_10);
    assert_eq!(properties.get(&key, 10), Some(&value_wrapper));
}

#[test]
fn test_property_empty() {
    let properties = OfxPropertySet::new();
    let key = b"Test".to_vec();
    assert_eq!(properties.get(&key, 0), None);
}

#[test]
fn insert_pads_with_undefined_and_keeps_others() {
    let mut properties = OfxPropertySet::new();
    let key = b"Test".to_vec();
    properties.insert(key.clone(), 0, PropertyValue::Integer(1));
    properties.insert(key.clone(), 3, PropertyValue::Integer(4));
    assert_eq!(properties.dimension(&key), Some(4));
    assert_eq!(properties.get(&key, 0), Some(&PropertyValue::Integer(1)));
    assert!(matches!(properties.get(&key, 1), Some(PropertyValue::Undefined)));
    assert!(matches!(properties.get(&key, 2), Some(PropertyValue::Undefined)));
    assert_eq!(properties.get(&key, 3), Some(&PropertyValue::Integer(4)));
    assert_eq!(properties.get(&key, 4), None);
    assert_eq!(properties.dimension(b"Other"), None);
}

#[test]
fn overwrite_keeps_dimension() {
    let mut properties = OfxPropertySet::new();
    let key = b"K".to_vec();
    properties.insert(key.clone(), 1, PropertyValue::Integer(1));
    properties.insert(key.clone(), 0, PropertyValue::Integer(7));
    assert_eq!(properties.dimension(&key), Some(2));
    assert_eq!(properties.get(&key, 0), Some(&PropertyValue::Integer(7)));
    assert_eq!(properties.get(&key, 1), Some(&PropertyValue::Integer(1)));
}

#[test]
fn property_value_equality() {
    assert!(PropertyValue::Integer(3) == PropertyValue::Integer(3));
    assert!(PropertyValue::Integer(3) != PropertyValue::Pointer(3));
    assert!(PropertyValue::Pointer(3) != PropertyValue::Integer(3));
    assert!(PropertyValue::Undefined != PropertyValue::Undefined);
    assert!(PropertyValue::Double(f64::NAN.to_bits()) != PropertyValue::Double(f64::NAN.to_bits()));
    assert!(PropertyValue::Double(0.0f64.to_bits()) == PropertyValue::Double((-0.0f64).to_bits()));
    assert!(PropertyValue::String(b"a".to_vec()) == PropertyValue::String(b"a".to_vec()));
    assert!(PropertyValue::String(b"a".to_vec()) != PropertyValue::String(b"b".to_vec()));
}

#[test]
fn copy_keeps_the_value() {
    let v = PropertyValue::String(b"abc".to_vec());
    assert_eq!(v.copy(), v);
}

#[test]
fn values_read_back_by_kind() {
    assert_eq!(ToOfxProperty::<i32>::from_ref(&PropertyValue::Integer(-4)), -4);
    assert_eq!(ToOfxProperty::<usize>::from_ref(&PropertyValue::Pointer(77)), 77usize);
    assert_eq!(f64::from_bits(ToOfxProperty::<u64>::from_ref(&PropertyValue::Double(2.5f64.to_bits()))), 2.5);
}
