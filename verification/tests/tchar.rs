use tcp2http::parse::tchar::token_map;

#[test]
fn test_is_digit() {
    let map: [bool; 256] = token_map();
    assert_eq!(map.len(), 256);
    assert!(map[b'0' as usize] && map[b'9' as usize] && map[b'a' as usize] && map[b'~' as usize]);
    assert!(!map[b' ' as usize] && !map[b':' as usize] && !map[0x80]);
}
