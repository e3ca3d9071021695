//! The boundary vocabulary: context errors, distinct wrappers, lerp.

use stark::context_error::{ContextError, WgpuContextError};
use stark::distinct::{Distinct, MapDistinct};
use stark::fixed::Fx;
use stark::interpolate::Interpolable;

#[test]
fn context_errors_classify_adapter_failures() {
    assert!(ContextError::RequestAdapterError.is_adapter_failure());
    assert!(!ContextError::RequestDeviceError.is_adapter_failure());
    assert!(WgpuContextError::RequestAdapterError.is_adapter_failure());
    assert!(!WgpuContextError::RequestDeviceError.is_adapter_failure());
    assert_eq!(ContextError::RequestAdapterError, ContextError::RequestAdapterError);
}

#[test]
fn distinct_values_never_compare_equal() {
    let a = Distinct(5i32);
    let b = Distinct(5i32);
    assert!(a != b);
    assert!(a != a);
    assert_eq!(*a.get(), 5);
    let wrapped = MapDistinct.map_value(7i32);
    assert_eq!(wrapped.0, 7);
}

#[test]
fn interpolable_lerp_moves_between_endpoints() {
    let a = Fx::from_int(2);
    let b = Fx::from_int(4);
    assert_eq!(a.lerp(b, Fx::from_bits(0)).bits, 2 * 65536);
    assert_eq!(a.lerp(b, Fx::from_bits(65536)).bits, 4 * 65536);
    assert_eq!(a.lerp(b, Fx::from_bits(32768)).bits, 3 * 65536);
}
