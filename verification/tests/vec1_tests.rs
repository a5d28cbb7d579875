use mailparse::Vec1;

#[test]
fn now_warning_on_empty_vec() {
    let _ = Vec1::new(1u8);
    let _ = Vec1::new(1u8);
}

#[test]
fn deref_slice() {
    let vec = Vec1::new(1u8);
    let _: &[u8] = vec.as_slice();
}

#[test]
fn deref_slice_mut() {
    let mut vec = Vec1::new(1u8);
    let _: &mut [u8] = vec.as_mut_slice();
}

#[test]
fn provided_all_ro_functions() {
    let vec = Vec1::new(1u8);
    assert_eq!(vec.len(), 1);
    assert!(vec.capacity() > 0);
    assert_eq!(vec.as_slice(), vec.as_vec().as_slice());
}

#[test]
fn provides_some_safe_mut_functions() {
    let mut vec = Vec1::new(1u8);
    vec.reserve(12);
    assert!(vec.capacity() >= 13);
    vec.reserve_exact(31);
    assert!(vec.capacity() >= 31);
    vec.shrink_to_fit();
    let _: &mut [u8] = vec.as_mut_slice();
    vec.insert(1, 31u8);
    vec.insert(1, 2u8);
    assert_eq!(vec.as_slice(), &[1, 2, 31]);
    vec.dedup_by_key(|k| *k / 3);
    assert_eq!(vec.as_slice(), &[1, 31]);
    vec.push(31);
    assert_eq!(vec.as_slice(), &[1, 31, 31]);
    vec.dedup_by(|l, r| l == r);
    assert_eq!(vec.as_slice(), &[1, 31]);
    vec.extend_from_slice(&[31, 2, 3]);
    assert_eq!(vec.as_slice(), &[1, 31, 31, 2, 3]);
    vec.dedub();
    assert_eq!(vec.as_slice(), &[1, 31, 2, 3]);
    // as the passed-in vec is emptied this won't work with a Vec1 parameter
    vec.append(&mut vec![1, 2, 3]);
    assert_eq!(vec.as_slice(), &[1, 31, 2, 3, 1, 2, 3])
}

#[test]
fn provides_other_methos_in_failible_form() {
    let mut vec = Vec1::new(1u8);
    vec.push(2);
    vec.push(3);
    vec.push(4);
    assert!(vec.try_truncate(3).is_ok());
    assert!(vec.try_truncate(0).is_err());
    assert_eq!(vec.as_slice(), &[1, 2, 3]);

    assert!(vec.try_swap_remove(0).is_ok());
    assert_eq!(vec.as_slice(), &[3, 2]);
    assert!(vec.try_remove(0).is_ok());
    assert_eq!(vec.as_slice(), &[2]);
    assert!(vec.try_swap_remove(0).is_err());
    assert!(vec.try_remove(0).is_err());
    vec.push(12);

    assert_eq!(vec.pop(), Some(12));
    assert_eq!(vec.pop(), None);
    assert_eq!(vec.as_slice(), &[2]);
}

#[test]
fn try_split_of() {
    let mut vec = Vec1::new(1);
    vec.push(2);
    vec.push(3);
    vec.push(4);
    assert!(vec.try_split_off(0).is_err());
    let len = vec.len();
    assert!(vec.try_split_off(len).is_err());
    let nvec = vec.try_split_off(len - 1).unwrap();
    assert_eq!(vec.as_slice(), &[1, 2, 3]);
    assert_eq!(nvec.as_slice(), &[4]);
}

#[test]
fn try_resize() {
    let mut vec = Vec1::new(1u8);
    assert!(vec.try_resize(10, 2u8).is_ok());
    assert_eq!(vec.len(), 10);
    assert!(vec.try_resize(1, 2u8).is_ok());
    assert_eq!(vec.as_slice(), &[1]);
    assert!(vec.try_resize(0, 2u8).is_err());
}

#[test]
fn with_capacity() {
    let vec = Vec1::with_capacity(1u8, 16);
    assert!(vec.capacity() >= 16);
}

#[test]
fn from_vec_and_into_vec_round_trip() {
    let v = Vec1::from_vec(vec![7u8, 8, 9]).unwrap();
    assert_eq!(v.last(), &9);
    assert_eq!(v.into_vec(), vec![7u8, 8, 9]);
    let empty: Vec<u8> = Vec::new();
    assert!(Vec1::from_vec(empty).is_err());
}

#[test]
fn last_mut_changes_the_last_element() {
    let mut v = Vec1::new(1u8);
    v.push(2);
    *v.last_mut() = 5;
    assert_eq!(v.as_slice(), &[1, 5]);
}
