use packet_match_fuzz::kernel::{CustomPtr, LargeStruct, RcuProtected, SelfReferential, SimpleData};

#[test]
fn test_simple_data() {
    let data = SimpleData {
        id: 1,
        value: 42,
        name: "test".to_string(),
    };
    assert_eq!(data.id, 1);
    assert_eq!(data.value, 42);
}

#[test]
fn test_self_referential() {
    let s = SelfReferential::new("Hello".to_string());
    assert_eq!(s.get_data(), "Hello");
}

#[test]
fn test_rcu_protected() {
    let rcu = RcuProtected::new(42);
    let value = rcu.read(|data| *data);
    assert_eq!(value, 42);
}

#[test]
fn test_large_struct_size() {
    let size = LargeStruct::size_in_bytes();
    println!("LargeStruct size: {} bytes", size);
    assert!(size >= 4096); // at least 4 KiB
}

#[test]
fn large_struct_default_is_zeroed() {
    let s = LargeStruct::default();
    assert!(s.buffer1.iter().all(|&b| b == 0));
    assert!(s.buffer2.iter().all(|&b| b == 0));
    assert!(s.buffer3.iter().all(|&b| b == 0));
    assert!(s.metadata.iter().all(|&w| w == 0));
}

#[test]
fn custom_ptr_owns_its_value() {
    let p = CustomPtr::new(String::from("boxed"));
    assert_eq!(p.get(), "boxed");
}
