use length_prefix::frame::{read_lp_bytes, write_lp_bytes};

#[test]
fn test() {
    let mut c: Vec<u8> = Vec::new();

    let str_in = String::from("Lorem ipsum dolor sit amet, consectetur adipiscing elit, sed do eiusmod tempor incididunt ut labore et dolore magna aliqua. Ut enim ad minim veniam, quis nostrud exercitation ullamco laboris nisi ut aliquip ex ea commodo consequat. Duis aute irure dolor in reprehenderit in voluptate velit esse cillum dolore eu fugiat nulla pariatur. Excepteur sint occaecat cupidatat non proident, sunt in culpa qui officia deserunt mollit anim id est laborum");
    let bytes_in = str_in.as_bytes();
    write_lp_bytes(&mut c, bytes_in);

    let (bytes_out, used) = read_lp_bytes(&c).unwrap();
    let str_out = String::from_utf8(bytes_out).unwrap();

    println!("{}", str_out);
    assert!(str_in == str_out);
    assert_eq!(used, c.len());
}
