use proxrs::base64::base64decode;
use proxrs::base64::base64encode;
use proxrs::base64::DecodeError;

#[test]
fn base64_test_base64() {
    let str = "aes-256-gcm:Q1GUZ7VDPZOASC9H";
    println!("{:?}", base64decode(str));
}

#[test]
fn test_base64_invalid() {
    let str = "anAtYW00OC02LmVxbm9kZS5uZXQ6ODA4MTpvcmlnaW46YWVzLTI1Ni1jZmI6dGxzMS4yX3RpY2tldF9hdXRoOlpVRnZhMkpoUkU0Mi8_Z3JvdXA9Y0hKdmVIbHdiMjlzYzNNdWFHVnliMnQxWVhCd0xtTnZiUSUzRCUzRCZvYmZzcGFyYW09JnByb3RvcGFyYW09";
    assert_eq!("jp-am48-6.eqnode.net:8081:origin:aes-256-cfb:tls1.2_ticket_auth:ZUFva2JhRE42/?group=cHJveHlwb29sc3MuaGVyb2t1YXBwLmNvbQ%3D%3D&obfsparam=&protoparam=", base64decode(str).unwrap());
}

#[test]
fn base64_test_base64decode() {
    match base64decode(String::from("aGVsbG8=").as_str()) {
        Ok(str) => {
            assert_eq!(str, String::from("hello"))
        }
        Err(_) => {
            assert!(false)
        }
    }
}

#[test]
fn base64_test_base64decode_error() {
    let str = base64decode(String::from("aGVsbG8").as_str()).unwrap();
    assert_eq!(str, String::from("hello"))
}

#[test]
fn mod_test_base64() {
    println!("{}", base64decode("eyJ2IjoiMiIsInBzIjoiXHU1MjY5XHU0ZjU5XHU2ZDQxXHU5MWNmXHVmZjFhNzkuNTEgR0IiLCJhZGQiOiJjZG5jZG5jZG5jZG4uNzg0NjU0Lnh5eiIsInBvcnQiOiIyMDUyIiwiaWQiOiIzZWE1NzhjNi0xZWFhLTRlMTUtYmZlMS05Zjc1N2I1OGU4ZjIiLCJhaWQiOiIwIiwibmV0Ijoid3MiLCJ0eXBlIjoibm9uZSIsImhvc3QiOiJjYS1jZmNkbi5haWt1bmFwcC5jb20iLCJwYXRoIjoiXC9pbmRleD9lZD0yMDQ4IiwidGxzIjoiIn0=").unwrap());
}

#[test]
fn mod_test_base64decode() {
    match base64decode(String::from("aGVsbG8=").as_str()) {
        Ok(str) => {
            assert_eq!(str, String::from("hello"))
        }
        Err(_) => {
            assert!(false)
        }
    }
}

#[test]
fn mod_test_base64decode_error() {
    let Err(e) = base64decode(String::from("aGVsbG").as_str()) else { panic!("decoded") };
    assert!(matches!(e, DecodeError::InvalidBase64))
}

#[test]
fn encode_hello() {
    assert_eq!(base64encode("hello".to_string()), "aGVsbG8=");
    assert_eq!(base64encode(String::new()), "");
}

#[test]
fn encode_then_decode() {
    let text = "aes-256-gcm:Q1GUZ7VDPZOASC9H 香港".to_string();
    assert_eq!(base64decode(&base64encode(text.clone())).unwrap(), text);
}

#[test]
fn decode_url_safe_alphabet() {
    assert_eq!(base64encode("???".to_string()), "Pz8/");
    assert_eq!(base64decode("Pz8_").unwrap(), "???");
    assert_eq!(base64encode(">>>".to_string()), "Pj4+");
    assert_eq!(base64decode("Pj4-").unwrap(), ">>>");
}

#[test]
fn decode_invalid_utf8() {
    assert_eq!(base64decode("-_8"), Err(DecodeError::InvalidUtf8));
}

#[test]
fn decode_invalid_character() {
    assert_eq!(base64decode("ab@c"), Err(DecodeError::InvalidBase64));
}
