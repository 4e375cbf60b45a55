use base64::{base64_decode, base64_encode};

#[test]
fn pregenerated_random_bytes_encode() {
    assert_eq!(base64_encode(&b"\xd31\xc9\x87D\xfe\xaa\xb3\xff\xef\x8c\x0eoD".to_vec()), "0zHJh0T+qrP/74wOb0Q=");
    assert_eq!(base64_encode(&b"\x9f\x0e8\xbc\xf5\xd0-\xb4.\xd4\xf0?\x8f\xe7\t{.\xff/6\xcbTY!\xae9\x82".to_vec()), "nw44vPXQLbQu1PA/j+cJey7/LzbLVFkhrjmC");
    assert_eq!(base64_encode(&b"\x7f3\x15\x1a\xd3\xf91\x9bS\xa44=".to_vec()), "fzMVGtP5MZtTpDQ9");
    assert_eq!(base64_encode(&b"7:\xf5\xd1[\xbfV/P\x18\x03\x00\xdc\xcd\xa1\xecG".to_vec()), "Nzr10Vu/Vi9QGAMA3M2h7Ec=");
    assert_eq!(base64_encode(&b"\xc3\xc9\x18={\xc4\x08\x97wN\xda\x81\x84?\x94\xe6\x9e".to_vec()), "w8kYPXvECJd3TtqBhD+U5p4=");
    assert_eq!(base64_encode(&b"\x8cJ\xf8e\x13\r\x8fw\xa8\xe6G\xce\x93c*\xe7M\xb6\xd7".to_vec()), "jEr4ZRMNj3eo5kfOk2Mq50221w==");
    assert_eq!(base64_encode(&b"\xde\xc4~\xb2}\xb1\x14F.~\xa1z|s\x90\x8dd\x9b\x04\x81\xf2\x92{".to_vec()), "3sR+sn2xFEYufqF6fHOQjWSbBIHykns=");
    assert_eq!(base64_encode(&b"\xf0y\t\x14\xd161n\x03e\xed\x0e\x05\xdf\xc1\xb9\xda".to_vec()), "8HkJFNE2MW4DZe0OBd/Budo=");
    assert_eq!(base64_encode(&b"*.\x8e\x1d@\x1ac\xdd;\x9a\xcc \x0c\xc2KI".to_vec()), "Ki6OHUAaY907mswgDMJLSQ==");
    assert_eq!(base64_encode(&b"\xd6\x829\x82\xbc\x00\xc9\xfe\x03".to_vec()), "1oI5grwAyf4D");
    assert_eq!(base64_encode(&b"\r\xf2\xb4\xd4\xa1g\x8fhl\xaa@\x98\x00\xda\x95".to_vec()), "DfK01KFnj2hsqkCYANqV");
    assert_eq!(base64_encode(&b"\x1a\xfaV\x1a\xc2e\xc0\xad\xef|\x07\xcf\xa9\xb7O".to_vec()), "GvpWGsJlwK3vfAfPqbdP");
    assert_eq!(base64_encode(&b"\xc20{_\x81\xac".to_vec()), "wjB7X4Gs");
    assert_eq!(base64_encode(&b"B\xa85\xac\xe9\x0ev-\x8bT\xb3|\xde".to_vec()), "Qqg1rOkOdi2LVLN83g==");
    assert_eq!(base64_encode(&b"\x05\xe0\xeeSs\xfdY9\x0b7\x84\xfc-\xec".to_vec()), "BeDuU3P9WTkLN4T8Lew=");
    assert_eq!(base64_encode(&b"Qj\x92\xfa?\xa5\xe3_[\xde\x82\x97{$\xb2\xf9\xd5\x98\x0cy\x15\xe4R\x8d".to_vec()), "UWqS+j+l419b3oKXeySy+dWYDHkV5FKN");
    assert_eq!(base64_encode(&b"\x853\xe0\xc0\x1d\xc1".to_vec()), "hTPgwB3B");
    assert_eq!(base64_encode(&b"}2\xd0\x13m\x8d\x8f#\x9c\xf5,\xc7".to_vec()), "fTLQE22NjyOc9SzH");
}

#[test]
fn pregenerated_random_bytes_decode() {
    assert_eq!(
        base64_decode(&String::from("0zHJh0T+qrP/74wOb0Q=")).unwrap(),
        b"\xd31\xc9\x87D\xfe\xaa\xb3\xff\xef\x8c\x0eoD".to_vec()
    );
    assert_eq!(
        base64_decode(&String::from("nw44vPXQLbQu1PA/j+cJey7/LzbLVFkhrjmC")).unwrap(),
        b"\x9f\x0e8\xbc\xf5\xd0-\xb4.\xd4\xf0?\x8f\xe7\t{.\xff/6\xcbTY!\xae9\x82".to_vec()
    );
    assert_eq!(
        base64_decode(&String::from("fzMVGtP5MZtTpDQ9")).unwrap(),
        b"\x7f3\x15\x1a\xd3\xf91\x9bS\xa44=".to_vec()
    );
    assert_eq!(
        base64_decode(&String::from("Nzr10Vu/Vi9QGAMA3M2h7Ec=")).unwrap(),
        b"7:\xf5\xd1[\xbfV/P\x18\x03\x00\xdc\xcd\xa1\xecG".to_vec()
    );
    assert_eq!(
        base64_decode(&String::from("w8kYPXvECJd3TtqBhD+U5p4=")).unwrap(),
        b"\xc3\xc9\x18={\xc4\x08\x97wN\xda\x81\x84?\x94\xe6\x9e".to_vec()
    );
    assert_eq!(
        base64_decode(&String::from("jEr4ZRMNj3eo5kfOk2Mq50221w==")).unwrap(),
        b"\x8cJ\xf8e\x13\r\x8fw\xa8\xe6G\xce\x93c*\xe7M\xb6\xd7".to_vec()
    );
    assert_eq!(
        base64_decode(&String::from("3sR+sn2xFEYufqF6fHOQjWSbBIHykns=")).unwrap(),
        b"\xde\xc4~\xb2}\xb1\x14F.~\xa1z|s\x90\x8dd\x9b\x04\x81\xf2\x92{".to_vec()
    );
    assert_eq!(
        base64_decode(&String::from("8HkJFNE2MW4DZe0OBd/Budo=")).unwrap(),
        b"\xf0y\t\x14\xd161n\x03e\xed\x0e\x05\xdf\xc1\xb9\xda".to_vec()
    );
    assert_eq!(
        base64_decode(&String::from("Ki6OHUAaY907mswgDMJLSQ==")).unwrap(),
        b"*.\x8e\x1d@\x1ac\xdd;\x9a\xcc \x0c\xc2KI".to_vec()
    );
    assert_eq!(
        base64_decode(&String::from("1oI5grwAyf4D")).unwrap(),
        b"\xd6\x829\x82\xbc\x00\xc9\xfe\x03".to_vec()
    );
    assert_eq!(
        base64_decode(&String::from("DfK01KFnj2hsqkCYANqV")).unwrap(),
        b"\r\xf2\xb4\xd4\xa1g\x8fhl\xaa@\x98\x00\xda\x95".to_vec()
    );
    assert_eq!(
        base64_decode(&String::from("GvpWGsJlwK3vfAfPqbdP")).unwrap(),
        b"\x1a\xfaV\x1a\xc2e\xc0\xad\xef|\x07\xcf\xa9\xb7O".to_vec()
    );
    assert_eq!(
        base64_decode(&String::from("wjB7X4Gs")).unwrap(),
        b"\xc20{_\x81\xac".to_vec()
    );
    assert_eq!(
        base64_decode(&String::from("Qqg1rOkOdi2LVLN83g==")).unwrap(),
        b"B\xa85\xac\xe9\x0ev-\x8bT\xb3|\xde".to_vec()
    );
    assert_eq!(
        base64_decode(&String::from("BeDuU3P9WTkLN4T8Lew=")).unwrap(),
        b"\x05\xe0\xeeSs\xfdY9\x0b7\x84\xfc-\xec".to_vec()
    );
    assert_eq!(
        base64_decode(&String::from("UWqS+j+l419b3oKXeySy+dWYDHkV5FKN")).unwrap(),
        b"Qj\x92\xfa?\xa5\xe3_[\xde\x82\x97{$\xb2\xf9\xd5\x98\x0cy\x15\xe4R\x8d".to_vec()
    );
    assert_eq!(
        base64_decode(&String::from("hTPgwB3B")).unwrap(),
        b"\x853\xe0\xc0\x1d\xc1".to_vec()
    );
    assert_eq!(
        base64_decode(&String::from("fTLQE22NjyOc9SzH")).unwrap(),
        b"}2\xd0\x13m\x8d\x8f#\x9c\xf5,\xc7".to_vec()
    );
}

#[test]
fn encode_decode() {
    assert_eq!(base64_decode(&base64_encode(&b"green".to_vec())).unwrap(), b"green");
    assert_eq!(base64_decode(&base64_encode(&b"The quick brown fox jumped over the lazy dog.".to_vec())).unwrap(), b"The quick brown fox jumped over the lazy dog.");
    assert_eq!(base64_decode(&base64_encode(&b"Lorem Ipsum sit dolor amet.".to_vec())).unwrap(), b"Lorem Ipsum sit dolor amet.");
    assert_eq!(base64_decode(&base64_encode(&b"0".to_vec())).unwrap(), b"0");
    assert_eq!(base64_decode(&base64_encode(&b"01".to_vec())).unwrap(), b"01");
    assert_eq!(base64_decode(&base64_encode(&b"012".to_vec())).unwrap(), b"012");
    assert_eq!(base64_decode(&base64_encode(&b"0123".to_vec())).unwrap(), b"0123");
    assert_eq!(base64_decode(&base64_encode(&b"0123456789".to_vec())).unwrap(), b"0123456789");
}

#[test]
fn decode_encode() {
    assert_eq!(
        base64_encode(&base64_decode(&String::from("TG9uZyBsaXZlIGVhc3RlciBlZ2dzIDop")).unwrap()),
        String::from("TG9uZyBsaXZlIGVhc3RlciBlZ2dzIDop")
    );
    assert_eq!(
        base64_encode(&base64_decode(&String::from("SGFwcHkgSGFja3RvYmVyZmVzdCE=")).unwrap()),
        String::from("SGFwcHkgSGFja3RvYmVyZmVzdCE=")
    );
    assert_eq!(
        base64_encode(&base64_decode(&String::from("PVRoZSBBbGdvcml0aG1zPQ==")).unwrap()),
        String::from("PVRoZSBBbGdvcml0aG1zPQ==")
    );
}
