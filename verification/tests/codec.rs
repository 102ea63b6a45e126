use bifrost::codec::{
    get_bool, get_bytes, get_ids, get_str, get_u64, put_bool, put_bytes, put_ids, put_len,
    put_raw, put_str, put_u64,
};

#[test]
fn integers_are_eight_bytes_lowest_first() {
    let mut out = Vec::new();
    put_u64(&mut out, 0x0102_0304_0506_0708);
    assert_eq!(out, vec![8, 7, 6, 5, 4, 3, 2, 1]);
    assert_eq!(get_u64(&out, 0), Some((0x0102_0304_0506_0708, 8)));
    put_len(&mut out, 3);
    assert_eq!(&out[8..], &[3, 0, 0, 0, 0, 0, 0, 0]);
}

#[test]
fn integers_at_the_limits_come_back() {
    for v in [0u64, 1, 255, 256, u64::MAX - 1, u64::MAX] {
        let mut out = vec![9u8];
        put_u64(&mut out, v);
        assert_eq!(out.len(), 9);
        assert_eq!(get_u64(&out, 1), Some((v, 9)));
    }
}

#[test]
fn short_input_gives_no_integer() {
    assert_eq!(get_u64(&[1, 2, 3, 4, 5, 6, 7], 0), None);
    assert_eq!(get_u64(&[0; 8], 1), None);
    assert_eq!(get_u64(&[0; 8], 9), None);
    assert_eq!(get_u64(&[], 0), None);
}

#[test]
fn truth_values_are_one_byte() {
    let mut out = Vec::new();
    put_bool(&mut out, true);
    put_bool(&mut out, false);
    assert_eq!(out, vec![1, 0]);
    assert_eq!(get_bool(&out, 0), Some((true, 1)));
    assert_eq!(get_bool(&out, 1), Some((false, 2)));
    assert_eq!(get_bool(&out, 2), None);
    assert_eq!(get_bool(&[2], 0), None);
}

#[test]
fn blocks_stand_behind_their_length() {
    let mut out = Vec::new();
    put_bytes(&mut out, &[7, 8, 9]);
    assert_eq!(out, vec![3, 0, 0, 0, 0, 0, 0, 0, 7, 8, 9]);
    let (block, end) = get_bytes(&out, 0).unwrap();
    assert_eq!(block, &[7, 8, 9]);
    assert_eq!(end, 11);
    let mut none = Vec::new();
    put_bytes(&mut none, &[]);
    assert_eq!(get_bytes(&none, 0), Some((&[][..], 8)));
}

#[test]
fn a_block_longer_than_the_input_is_refused() {
    assert_eq!(get_bytes(&[4, 0, 0, 0, 0, 0, 0, 0, 1, 2, 3], 0), None);
    assert_eq!(get_bytes(&[255; 8], 0), None);
}

#[test]
fn raw_bytes_are_appended_as_they_are() {
    let mut out = vec![1u8];
    put_raw(&mut out, &[2, 3]);
    put_raw(&mut out, &[]);
    assert_eq!(out, vec![1, 2, 3]);
}

#[test]
fn strings_are_utf8_behind_their_length() {
    let mut out = Vec::new();
    put_str(&mut out, "héllo");
    assert_eq!(out, vec![6, 0, 0, 0, 0, 0, 0, 0, b'h', 0xc3, 0xa9, b'l', b'l', b'o']);
    assert_eq!(get_str(&out, 0), Some((String::from("héllo"), 14)));
    let mut none = Vec::new();
    put_str(&mut none, "");
    assert_eq!(get_str(&none, 0), Some((String::new(), 8)));
}

#[test]
fn bytes_that_are_not_utf8_are_no_string() {
    assert_eq!(get_str(&[2, 0, 0, 0, 0, 0, 0, 0, 0xc3, 0x28], 0), None);
    assert_eq!(get_str(&[1, 0, 0, 0, 0, 0, 0, 0, 0xff], 0), None);
    assert_eq!(get_str(&[1, 0, 0, 0, 0, 0, 0, 0], 0), None);
}

#[test]
fn lists_stand_behind_their_count() {
    let mut out = Vec::new();
    put_ids(&mut out, &vec![1, 0x0100]);
    assert_eq!(
        out,
        vec![2, 0, 0, 0, 0, 0, 0, 0, 1, 0, 0, 0, 0, 0, 0, 0, 0, 1, 0, 0, 0, 0, 0, 0]
    );
    assert_eq!(get_ids(&out, 0), Some((vec![1, 0x0100], 24)));
    let mut none = Vec::new();
    put_ids(&mut none, &Vec::new());
    assert_eq!(get_ids(&none, 0), Some((Vec::new(), 8)));
}

#[test]
fn a_list_that_is_cut_short_is_refused() {
    let mut out = Vec::new();
    put_ids(&mut out, &vec![1, 2, 3]);
    out.pop();
    assert_eq!(get_ids(&out, 0), None);
    assert_eq!(get_ids(&[255; 8], 0), None);
}

#[test]
fn values_one_behind_the_other_are_read_in_turn() {
    let mut out = Vec::new();
    put_str(&mut out, "server1");
    put_u64(&mut out, 77);
    put_bool(&mut out, true);
    put_ids(&mut out, &vec![5]);
    let (s, a) = get_str(&out, 0).unwrap();
    let (n, b) = get_u64(&out, a).unwrap();
    let (t, c) = get_bool(&out, b).unwrap();
    let (l, d) = get_ids(&out, c).unwrap();
    assert_eq!((s.as_str(), n, t, l), ("server1", 77, true, vec![5]));
    assert_eq!(d, out.len());
}
